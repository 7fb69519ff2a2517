//! The CONNECT exchange with the edge, the frames around it, and where the edge is.

use crate::addr;
use crate::laws::names;
use crate::outbound::masque;
use crate::outbound::masque::huffman;
use crate::outbound::masque::qpack;
use crate::outbound::masque::{ConnectFault, HeadersFound, MAX_SKIPPED_FRAMES};
use crate::wire;
use vstd::arithmetic::power::*;
use vstd::prelude::*;
use vstd::utf8::*;

verus! {

// ---------------------------------------------------------------------------
// Field sections

/// A string of a field section: the bytes on the wire and what they stand for.
pub struct Coded {
    pub huffman: bool,
    pub raw: Seq<u8>,
    pub text: Seq<u8>,
}

/// The bytes stand for the text, and their number fits in one byte of a size.
pub open spec fn is_coded(c: Coded) -> bool {
    &&& c.raw.len() < 127
    &&& c.huffman ==> huffman::spells(huffman::bits_of(c.raw), c.text)
    &&& !c.huffman ==> c.text == c.raw
}

/// One line of a field section as a peer writes it.
pub enum Line {
    /// An entry of the static table.
    Static(u8),
    /// An entry of the dynamic table.
    Dynamic(u8),
    /// A name from a table, by its number and the bits above it, and a value.
    Named(u8, Coded),
    /// A name and a value.
    Literal(Coded, Coded),
}

/// A line that can be written: the static table has 99 entries.
pub open spec fn is_line(l: Line) -> bool {
    match l {
        Line::Static(index) => index < 99,
        Line::Dynamic(index) => index < 63,
        Line::Named(first, value) => 0x40 <= first < 0x80 && first % 16 < 15 && is_coded(value),
        Line::Literal(name, value) => is_coded(name) && is_coded(value),
    }
}

/// Lines that can be written.
pub open spec fn are_lines(lines: Seq<Line>) -> bool {
    forall|i: int| 0 <= i < lines.len() ==> is_line(#[trigger] lines[i])
}

/// The bytes of a value: its size, with the high bit where it is Huffman-coded, and
/// its bytes.
pub open spec fn value_bytes(c: Coded) -> Seq<u8> {
    seq![(c.raw.len() + if c.huffman { 128int } else { 0 }) as u8] + c.raw
}

/// The bytes of a name: its size in three bits, 0x08 where it is Huffman-coded, and
/// its bytes.
pub open spec fn literal_name_bytes(c: Coded) -> Seq<u8> {
    let mark = if c.huffman { 0x28int } else { 0x20 };
    if c.raw.len() < 7 {
        seq![(mark + c.raw.len()) as u8] + c.raw
    } else {
        seq![(mark + 7) as u8, (c.raw.len() - 7) as u8] + c.raw
    }
}

/// The bytes of a line.
pub open spec fn line_bytes(l: Line) -> Seq<u8> {
    match l {
        Line::Static(index) => if index < 63 {
            seq![(0xc0 + index) as u8]
        } else {
            seq![0xffu8, (index - 63) as u8]
        },
        Line::Dynamic(index) => seq![(0x80 + index) as u8],
        Line::Named(first, value) => seq![first] + value_bytes(value),
        Line::Literal(name, value) => literal_name_bytes(name) + value_bytes(value),
    }
}

/// Lines one after the other.
pub open spec fn lines_bytes(lines: Seq<Line>) -> Seq<u8>
    decreases lines.len(),
{
    if lines.len() == 0 {
        Seq::empty()
    } else {
        line_bytes(lines[0]) + lines_bytes(lines.drop_first())
    }
}

/// A field section without a dynamic table: the prefix `00 00` and the lines.
pub open spec fn section(lines: Seq<Line>) -> Seq<u8> {
    seq![0u8, 0] + lines_bytes(lines)
}

/// The status that a line says, by the entries of the static table that are named
/// `:status`.
pub open spec fn status_said(l: Line) -> Option<u16> {
    match l {
        Line::Static(24) => Some(103),
        Line::Static(25) => Some(200),
        Line::Static(26) => Some(304),
        Line::Static(27) => Some(404),
        Line::Static(28) => Some(503),
        Line::Static(63) => Some(100),
        Line::Static(64) => Some(204),
        Line::Static(65) => Some(206),
        Line::Static(66) => Some(302),
        Line::Static(67) => Some(400),
        Line::Static(68) => Some(403),
        Line::Static(69) => Some(421),
        Line::Static(70) => Some(425),
        Line::Static(71) => Some(500),
        _ => None,
    }
}

/// The bytes of a data centre that a line names.
pub open spec fn colo_said(l: Line) -> Option<Seq<u8>> {
    match l {
        Line::Literal(name, value) => if name.text == encode_utf8("cf-warp-colo"@) {
            Some(value.text)
        } else {
            None
        },
        _ => None,
    }
}

/// The line at `k` is the last that says a status.
pub open spec fn says_status_last(lines: Seq<Line>, k: int) -> bool {
    &&& 0 <= k < lines.len()
    &&& status_said(lines[k]) is Some
    &&& forall|i: int| k < i < lines.len() ==> status_said(#[trigger] lines[i]) is None
}

/// The line at `k` is the last that names a data centre.
pub open spec fn says_colo_last(lines: Seq<Line>, k: int) -> bool {
    &&& 0 <= k < lines.len()
    &&& colo_said(lines[k]) is Some
    &&& forall|i: int| k < i < lines.len() ==> colo_said(#[trigger] lines[i]) is None
}

spec fn meaning(l: Line) -> qpack::FieldLine {
    match l {
        Line::Static(index) => qpack::FieldLine::Indexed { in_static: true, index: index as nat },
        Line::Dynamic(index) => qpack::FieldLine::Indexed { in_static: false, index: index as nat },
        Line::Named(_, _) => qpack::FieldLine::NameRef,
        Line::Literal(name, value) => qpack::FieldLine::Literal {
            name: name.text,
            value: value.text,
        },
    }
}

spec fn meanings(lines: Seq<Line>) -> Seq<qpack::FieldLine> {
    Seq::new(lines.len(), |i: int| meaning(lines[i]))
}

proof fn lemma_short_integer(buf: Seq<u8>, pos: int, bits: u8, size: int, low: int)
    requires
        1 <= bits <= 8,
        0 <= pos < buf.len(),
        size == qpack::prefix_max(bits) + 1,
        low == buf[pos] as int % size,
        low < size - 1,
    ensures
        qpack::integer_at(buf, pos, bits) == Ok::<(nat, int), Seq<char>>((low as nat, pos + 1)),
{
    assert(buf[pos] as nat % (qpack::prefix_max(bits) + 1) == low);
}

proof fn lemma_long_integer(buf: Seq<u8>, pos: int, bits: u8, size: int)
    requires
        1 <= bits <= 8,
        0 <= pos,
        pos + 1 < buf.len(),
        size == qpack::prefix_max(bits) + 1,
        buf[pos] as int % size == size - 1,
        buf[pos + 1] < 128,
    ensures
        qpack::integer_at(buf, pos, bits) == Ok::<(nat, int), Seq<char>>(
            ((size - 1 + buf[pos + 1]) as nat, pos + 2),
        ),
{
    let s = buf.subrange(pos + 1, pos + 2);
    assert(buf[pos] as nat % (qpack::prefix_max(bits) + 1) == size - 1);
    assert(qpack::high_bit_run(buf, pos + 1) == 0);
    assert(s.drop_first() =~= Seq::empty());
    assert(qpack::continuation_value(s.drop_first()) == 0);
    assert(qpack::continuation_value(s) == s[0] % 128);
}

proof fn lemma_coded(c: Coded)
    requires
        is_coded(c),
    ensures
        qpack::string_meaning(c.raw, c.huffman) == Some(c.text),
{
    if c.huffman {
        let bits = huffman::bits_of(c.raw);
        huffman::lemma_spells_one_text(
            bits,
            c.text,
            choose|text: Seq<u8>| huffman::spells(bits, text),
        );
    }
}

proof fn lemma_value_at(before: Seq<u8>, c: Coded, after: Seq<u8>)
    requires
        is_coded(c),
        (before + value_bytes(c) + after).len() <= usize::MAX,
    ensures
        qpack::literal_at(before + value_bytes(c) + after, before.len() as int) == Ok::<
            (Seq<u8>, int),
            Seq<char>,
        >((c.text, (before.len() + value_bytes(c).len()) as int)),
        qpack::literal_end(before + value_bytes(c) + after, before.len() as int) == Ok::<
            int,
            Seq<char>,
        >((before.len() + value_bytes(c).len()) as int),
{
    let buf = before + value_bytes(c) + after;
    let pos = before.len() as int;
    let n = c.raw.len() as int;
    qpack::lemma_prefix_max(7);
    assert(buf[pos] == value_bytes(c)[0]);
    assert(buf[pos] == n + if c.huffman { 128int } else { 0 });
    lemma_short_integer(buf, pos, 7, 128, n);
    assert(buf.subrange(pos + 1, pos + 1 + n) =~= c.raw);
    lemma_coded(c);
}

proof fn lemma_indexed_at(before: Seq<u8>, l: Line, after: Seq<u8>)
    requires
        is_line(l),
        l is Static || l is Dynamic,
    ensures
        qpack::line_at(before + line_bytes(l) + after, before.len() as int) == Ok::<
            (qpack::FieldLine, int),
            Seq<char>,
        >((meaning(l), (before.len() + line_bytes(l).len()) as int)),
{
    let buf = before + line_bytes(l) + after;
    let pos = before.len() as int;
    qpack::lemma_prefix_max(6);
    assert(buf[pos] == line_bytes(l)[0]);
    match l {
        Line::Static(index) => {
            if index < 63 {
                lemma_short_integer(buf, pos, 6, 64, index as int);
            } else {
                assert(buf[pos + 1] == line_bytes(l)[1]);
                lemma_long_integer(buf, pos, 6, 64);
            }
        },
        Line::Dynamic(index) => {
            lemma_short_integer(buf, pos, 6, 64, index as int);
        },
        _ => {},
    }
}

proof fn lemma_named_at(before: Seq<u8>, first: u8, value: Coded, after: Seq<u8>)
    requires
        is_line(Line::Named(first, value)),
        (before + line_bytes(Line::Named(first, value)) + after).len() <= usize::MAX,
    ensures
        qpack::line_at(
            before + line_bytes(Line::Named(first, value)) + after,
            before.len() as int,
        ) == Ok::<(qpack::FieldLine, int), Seq<char>>(
            (
                qpack::FieldLine::NameRef,
                (before.len() + line_bytes(Line::Named(first, value)).len()) as int,
            ),
        ),
{
    let buf = before + line_bytes(Line::Named(first, value)) + after;
    let pos = before.len() as int;
    qpack::lemma_prefix_max(4);
    assert(buf[pos] == first);
    lemma_short_integer(buf, pos, 4, 16, first as int % 16);
    assert(buf =~= before.push(first) + value_bytes(value) + after);
    lemma_value_at(before.push(first), value, after);
}

proof fn lemma_name_at(before: Seq<u8>, c: Coded, after: Seq<u8>)
    requires
        is_coded(c),
    ensures
        ({
            let buf = before + literal_name_bytes(c) + after;
            let pos = before.len() as int;
            let end = (before.len() + literal_name_bytes(c).len()) as int;
            &&& 0x20 <= buf[pos] < 0x40
            &&& (buf[pos] / 8 % 2 == 1) == c.huffman
            &&& qpack::integer_at(buf, pos, 3) == Ok::<(nat, int), Seq<char>>(
                (c.raw.len(), end - c.raw.len()),
            )
            &&& buf.subrange(end - c.raw.len(), end) == c.raw
        }),
{
    let head = literal_name_bytes(c);
    let buf = before + head + after;
    let pos = before.len() as int;
    let n = c.raw.len() as int;
    qpack::lemma_prefix_max(3);
    assert(buf[pos] == head[0]);
    if n < 7 {
        lemma_short_integer(buf, pos, 3, 8, n);
        assert(buf.subrange(pos + 1, pos + 1 + n) =~= c.raw);
    } else {
        assert(buf[pos + 1] == head[1]);
        lemma_long_integer(buf, pos, 3, 8);
        assert(buf.subrange(pos + 2, pos + 2 + n) =~= c.raw);
    }
}

proof fn lemma_literal_at(before: Seq<u8>, name: Coded, value: Coded, after: Seq<u8>)
    requires
        is_coded(name),
        is_coded(value),
        (before + line_bytes(Line::Literal(name, value)) + after).len() <= usize::MAX,
    ensures
        qpack::line_at(
            before + line_bytes(Line::Literal(name, value)) + after,
            before.len() as int,
        ) == Ok::<(qpack::FieldLine, int), Seq<char>>(
            (
                qpack::FieldLine::Literal { name: name.text, value: value.text },
                (before.len() + line_bytes(Line::Literal(name, value)).len()) as int,
            ),
        ),
{
    let buf = before + line_bytes(Line::Literal(name, value)) + after;
    let head = literal_name_bytes(name);
    lemma_name_at(before, name, value_bytes(value) + after);
    assert(buf =~= before + head + (value_bytes(value) + after));
    lemma_coded(name);
    assert(buf =~= (before + head) + value_bytes(value) + after);
    lemma_value_at(before + head, value, after);
}

proof fn lemma_line_at(before: Seq<u8>, l: Line, after: Seq<u8>)
    requires
        is_line(l),
        (before + line_bytes(l) + after).len() <= usize::MAX,
    ensures
        qpack::line_at(before + line_bytes(l) + after, before.len() as int) == Ok::<
            (qpack::FieldLine, int),
            Seq<char>,
        >((meaning(l), (before.len() + line_bytes(l).len()) as int)),
        line_bytes(l).len() > 0,
{
    match l {
        Line::Named(first, value) => lemma_named_at(before, first, value, after),
        Line::Literal(name, value) => lemma_literal_at(before, name, value, after),
        _ => lemma_indexed_at(before, l, after),
    }
}

proof fn lemma_lines_from(before: Seq<u8>, lines: Seq<Line>)
    requires
        are_lines(lines),
        (before + lines_bytes(lines)).len() <= usize::MAX,
    ensures
        qpack::lines_from(before + lines_bytes(lines), before.len() as int) == Ok::<
            Seq<qpack::FieldLine>,
            Seq<char>,
        >(meanings(lines)),
    decreases lines.len(),
{
    let buf = before + lines_bytes(lines);
    if lines.len() == 0 {
        assert(meanings(lines) =~= Seq::empty());
    } else {
        let rest = lines.drop_first();
        let first = line_bytes(lines[0]);
        assert(is_line(lines[0]));
        assert forall|i: int| 0 <= i < rest.len() implies is_line(#[trigger] rest[i]) by {
            assert(rest[i] == lines[i + 1]);
        }
        assert(buf =~= before + first + lines_bytes(rest));
        lemma_line_at(before, lines[0], lines_bytes(rest));
        assert(buf =~= (before + first) + lines_bytes(rest));
        lemma_lines_from(before + first, rest);
        assert(meanings(lines) =~= seq![meaning(lines[0])] + meanings(rest));
    }
}

proof fn lemma_section_lines(lines: Seq<Line>)
    requires
        are_lines(lines),
        section(lines).len() <= usize::MAX,
    ensures
        qpack::section_lines(section(lines)) == Ok::<Seq<qpack::FieldLine>, Seq<char>>(
            meanings(lines),
        ),
{
    let buf = section(lines);
    qpack::lemma_prefix_max(8);
    qpack::lemma_prefix_max(7);
    assert(buf[0] == 0 && buf[1] == 0);
    lemma_short_integer(buf, 0, 8, 256, 0);
    lemma_short_integer(buf, 1, 7, 128, 0);
    lemma_lines_from(seq![0u8, 0], lines);
}

proof fn lemma_last_status(lines: Seq<Line>, k: int)
    ensures
        says_status_last(lines, k) ==> qpack::last_status(meanings(lines)) == status_said(lines[k]),
        (forall|i: int| 0 <= i < lines.len() ==> status_said(#[trigger] lines[i]) is None)
            ==> qpack::last_status(meanings(lines)) is None,
    decreases lines.len(),
{
    if lines.len() > 0 {
        let front = lines.drop_last();
        assert(meanings(lines).drop_last() =~= meanings(front));
        assert(meanings(lines).last() == meaning(lines.last()));
        assert(qpack::line_status(meaning(lines.last())) == status_said(lines.last()));
        lemma_last_status(front, k);
        if says_status_last(lines, k) && k < lines.len() - 1 {
            assert(front[k] == lines[k]);
            assert(status_said(lines[lines.len() - 1]) is None);
            assert forall|i: int| k < i < front.len() implies status_said(
                #[trigger] front[i],
            ) is None by {
                assert(front[i] == lines[i]);
            }
        }
        if forall|i: int| 0 <= i < lines.len() ==> status_said(#[trigger] lines[i]) is None {
            assert(status_said(lines[lines.len() - 1]) is None);
            assert forall|i: int| 0 <= i < front.len() implies status_said(
                #[trigger] front[i],
            ) is None by {
                assert(front[i] == lines[i]);
            }
        }
    }
}

proof fn lemma_last_colo(lines: Seq<Line>, k: int)
    ensures
        says_colo_last(lines, k) ==> qpack::last_colo(meanings(lines)) == if valid_utf8(
            colo_said(lines[k])->Some_0,
        ) {
            Some(decode_utf8(colo_said(lines[k])->Some_0))
        } else {
            None
        },
        (forall|i: int| 0 <= i < lines.len() ==> colo_said(#[trigger] lines[i]) is None)
            ==> qpack::last_colo(meanings(lines)) is None,
    decreases lines.len(),
{
    if lines.len() > 0 {
        let front = lines.drop_last();
        assert(meanings(lines).drop_last() =~= meanings(front));
        assert(meanings(lines).last() == meaning(lines.last()));
        lemma_last_colo(front, k);
        if says_colo_last(lines, k) && k < lines.len() - 1 {
            assert(front[k] == lines[k]);
            assert(colo_said(lines[lines.len() - 1]) is None);
            assert forall|i: int| k < i < front.len() implies colo_said(
                #[trigger] front[i],
            ) is None by {
                assert(front[i] == lines[i]);
            }
        }
        if forall|i: int| 0 <= i < lines.len() ==> colo_said(#[trigger] lines[i]) is None {
            assert(colo_said(lines[lines.len() - 1]) is None);
            assert forall|i: int| 0 <= i < front.len() implies colo_said(
                #[trigger] front[i],
            ) is None by {
                assert(front[i] == lines[i]);
            }
        }
    }
}

/// The reply to a CONNECT opens a tunnel if and only if the last line of its field
/// section that says a status says 200; any other status refuses it, with that status;
/// without one the reply cannot be read.
pub proof fn lemma_reply_status(lines: Seq<Line>, k: int)
    requires
        are_lines(lines),
        section(lines).len() <= usize::MAX,
    ensures
        says_status_last(lines, k) && status_said(lines[k]) == Some(200u16) ==> masque::reply_of(
            section(lines),
        ) is Ok,
        says_status_last(lines, k) && status_said(lines[k]) != Some(200u16) ==> masque::reply_of(
            section(lines),
        ) == Err::<Option<Seq<char>>, ConnectFault>(
            ConnectFault::Refused(status_said(lines[k])->Some_0),
        ),
        (forall|i: int| 0 <= i < lines.len() ==> status_said(#[trigger] lines[i]) is None)
            ==> masque::reply_of(section(lines)) is Err && masque::reply_of(
            section(lines),
        )->Err_0 is BadResponse,
{
    lemma_section_lines(lines);
    lemma_last_status(lines, k);
}

/// Of whatever bytes a reply has: if they can be read at all, it opens a tunnel only
/// where the last status among its lines is 200, and every other status s among them
/// that is the last makes it `Refused(s)`.
pub proof fn lemma_reply_opens(payload: Seq<u8>, lines: Seq<qpack::FieldLine>, k: int, status: u16)
    requires
        qpack::section_lines(payload) == Ok::<Seq<qpack::FieldLine>, Seq<char>>(lines),
        0 <= k < lines.len(),
        qpack::line_status(lines[k]) == Some(status),
        forall|i: int| k < i < lines.len() ==> qpack::line_status(#[trigger] lines[i]) is None,
    ensures
        masque::reply_of(payload) is Ok <==> status == 200,
        status != 200 ==> masque::reply_of(payload) == Err::<Option<Seq<char>>, ConnectFault>(
            ConnectFault::Refused(status),
        ),
{
    lemma_status_of_lines(lines, k);
}

proof fn lemma_status_of_lines(lines: Seq<qpack::FieldLine>, k: int)
    requires
        0 <= k < lines.len(),
        qpack::line_status(lines[k]) is Some,
        forall|i: int| k < i < lines.len() ==> qpack::line_status(#[trigger] lines[i]) is None,
    ensures
        qpack::last_status(lines) == qpack::line_status(lines[k]),
    decreases lines.len(),
{
    if k < lines.len() - 1 {
        let front = lines.drop_last();
        assert(qpack::line_status(lines[lines.len() - 1]) is None);
        assert forall|i: int| k < i < front.len() implies qpack::line_status(
            #[trigger] front[i],
        ) is None by {
            assert(front[i] == lines[i]);
        }
        assert(front[k] == lines[k]);
        lemma_status_of_lines(front, k);
    }
}

/// An open tunnel says where the edge landed: what the last line named `cf-warp-colo`
/// says, where that is text, and nothing where there is no such line.
pub proof fn lemma_reply_colo(lines: Seq<Line>, k: int, c: int)
    requires
        are_lines(lines),
        section(lines).len() <= usize::MAX,
        says_status_last(lines, k),
        status_said(lines[k]) == Some(200u16),
    ensures
        forall|colo: Seq<char>|
            says_colo_last(lines, c) && colo_said(lines[c]) == Some(#[trigger] encode_utf8(colo))
                ==> masque::reply_of(section(lines)) == Ok::<Option<Seq<char>>, ConnectFault>(
                Some(colo),
            ),
        says_colo_last(lines, c) && !valid_utf8(colo_said(lines[c])->Some_0) ==> masque::reply_of(
            section(lines),
        ) == Ok::<Option<Seq<char>>, ConnectFault>(None),
        (forall|i: int| 0 <= i < lines.len() ==> colo_said(#[trigger] lines[i]) is None)
            ==> masque::reply_of(section(lines)) == Ok::<Option<Seq<char>>, ConnectFault>(None),
{
    lemma_section_lines(lines);
    lemma_last_status(lines, k);
    lemma_last_colo(lines, c);
    assert forall|colo: Seq<char>| colo_said(lines[c]) == Some(
        #[trigger] encode_utf8(colo),
    ) implies decode_utf8(colo_said(lines[c])->Some_0) == colo && valid_utf8(
        colo_said(lines[c])->Some_0,
    ) by {
        encode_utf8_valid_utf8(colo);
        encode_utf8_decode_utf8(colo);
    }
}

proof fn lemma_long_integer_cut(buf: Seq<u8>, pos: int, bits: u8, size: int)
    requires
        1 <= bits <= 8,
        0 <= pos,
        pos + 1 == buf.len(),
        size == qpack::prefix_max(bits) + 1,
        buf[pos] as int % size == size - 1,
    ensures
        qpack::integer_at(buf, pos, bits) is Err,
{
    assert(buf[pos] as nat % (qpack::prefix_max(bits) + 1) == size - 1);
    assert(qpack::high_bit_run(buf, pos + 1) == 0);
}

proof fn lemma_value_cut(before: Seq<u8>, c: Coded, come: int)
    requires
        is_coded(c),
        0 <= come < value_bytes(c).len(),
    ensures
        qpack::literal_at(before + value_bytes(c).take(come), before.len() as int) is Err,
        qpack::literal_end(before + value_bytes(c).take(come), before.len() as int) is Err,
{
    let part = value_bytes(c).take(come);
    let buf = before + part;
    let pos = before.len() as int;
    let n = c.raw.len() as int;
    qpack::lemma_prefix_max(7);
    if come > 0 {
        assert(part[0] == value_bytes(c)[0]);
        assert(buf[pos] == part[0]);
        lemma_short_integer(buf, pos, 7, 128, n);
    }
}

proof fn lemma_line_cut(before: Seq<u8>, l: Line, come: int)
    requires
        is_line(l),
        0 < come < line_bytes(l).len(),
        (before + line_bytes(l)).len() <= usize::MAX,
    ensures
        qpack::line_at(before + line_bytes(l).take(come), before.len() as int) is Err,
{
    let whole = line_bytes(l);
    let part = whole.take(come);
    let buf = before + part;
    let pos = before.len() as int;
    assert(part[0] == whole[0]);
    assert(buf[pos] == whole[0]);
    match l {
        Line::Static(index) => {
            qpack::lemma_prefix_max(6);
            lemma_long_integer_cut(buf, pos, 6, 64);
        },
        Line::Dynamic(_) => {},
        Line::Named(first, value) => {
            qpack::lemma_prefix_max(4);
            lemma_short_integer(buf, pos, 4, 16, first as int % 16);
            assert(buf =~= before.push(first) + value_bytes(value).take(come - 1));
            lemma_value_cut(before.push(first), value, come - 1);
        },
        Line::Literal(name, value) => {
            lemma_literal_cut(before, name, value, come);
        },
    }
}

proof fn lemma_name_part(before: Seq<u8>, c: Coded, come: int)
    requires
        is_coded(c),
        0 < come < literal_name_bytes(c).len(),
    ensures
        ({
            let buf = before + literal_name_bytes(c).take(come);
            let pos = before.len() as int;
            let r = qpack::integer_at(buf, pos, 3);
            &&& 0x20 <= buf[pos] < 0x40
            &&& r is Err || r->Ok_0.1 + r->Ok_0.0 > buf.len()
        }),
{
    let head = literal_name_bytes(c);
    let part = head.take(come);
    let buf = before + part;
    let pos = before.len() as int;
    let n = c.raw.len() as int;
    qpack::lemma_prefix_max(3);
    assert(part[0] == head[0]);
    assert(buf[pos] == head[0]);
    if n < 7 {
        lemma_short_integer(buf, pos, 3, 8, n);
    } else if come == 1 {
        lemma_long_integer_cut(buf, pos, 3, 8);
    } else {
        assert(part[1] == head[1]);
        assert(buf[pos + 1] == head[1]);
        lemma_long_integer(buf, pos, 3, 8);
    }
}

proof fn lemma_value_part(before: Seq<u8>, name: Coded, value: Coded, come: int)
    requires
        is_coded(name),
        is_coded(value),
        0 <= come < value_bytes(value).len(),
        (before + literal_name_bytes(name) + value_bytes(value)).len() <= usize::MAX,
    ensures
        qpack::line_at(
            before + literal_name_bytes(name) + value_bytes(value).take(come),
            before.len() as int,
        ) is Err,
{
    let head = literal_name_bytes(name);
    let rest = value_bytes(value).take(come);
    let buf = before + head + rest;
    lemma_name_at(before, name, rest);
    lemma_coded(name);
    lemma_value_cut(before + head, value, come);
    assert(buf =~= (before + head) + rest);
}

proof fn lemma_literal_cut(before: Seq<u8>, name: Coded, value: Coded, come: int)
    requires
        is_coded(name),
        is_coded(value),
        0 < come < line_bytes(Line::Literal(name, value)).len(),
        (before + line_bytes(Line::Literal(name, value))).len() <= usize::MAX,
    ensures
        qpack::line_at(
            before + line_bytes(Line::Literal(name, value)).take(come),
            before.len() as int,
        ) is Err,
{
    let head = literal_name_bytes(name);
    let part = line_bytes(Line::Literal(name, value)).take(come);
    if come < head.len() {
        assert(part =~= head.take(come));
        lemma_name_part(before, name, come);
    } else {
        let rest = value_bytes(value).take(come - head.len());
        assert(before + part =~= before + head + rest);
        lemma_value_part(before, name, value, come - head.len());
    }
}

proof fn lemma_lines_then(before: Seq<u8>, lines: Seq<Line>, rest: Seq<u8>)
    requires
        are_lines(lines),
        (before + lines_bytes(lines) + rest).len() <= usize::MAX,
        qpack::lines_from(
            before + lines_bytes(lines) + rest,
            (before + lines_bytes(lines)).len() as int,
        ) is Err,
    ensures
        qpack::lines_from(before + lines_bytes(lines) + rest, before.len() as int)
            == qpack::lines_from(
            before + lines_bytes(lines) + rest,
            (before + lines_bytes(lines)).len() as int,
        ),
    decreases lines.len(),
{
    let buf = before + lines_bytes(lines) + rest;
    if lines.len() > 0 {
        let others = lines.drop_first();
        let first = line_bytes(lines[0]);
        assert(is_line(lines[0]));
        assert forall|i: int| 0 <= i < others.len() implies is_line(#[trigger] others[i]) by {
            assert(others[i] == lines[i + 1]);
        }
        assert(buf =~= before + first + (lines_bytes(others) + rest));
        lemma_line_at(before, lines[0], lines_bytes(others) + rest);
        assert(buf =~= (before + first) + lines_bytes(others) + rest);
        lemma_lines_then(before + first, others, rest);
    }
}

/// A reply whose last line is cut off, wherever in the line, cannot be read, whatever
/// its other lines say; and neither can one with a line of a kind that refers to what
/// comes later.
pub proof fn lemma_reply_cut(lines: Seq<Line>, last: Line, come: int, other: u8, rest: Seq<u8>)
    requires
        are_lines(lines),
        is_line(last),
        0 < come < line_bytes(last).len(),
        (section(lines) + line_bytes(last)).len() <= usize::MAX,
        other < 0x20,
        (section(lines) + seq![other] + rest).len() <= usize::MAX,
    ensures
        masque::reply_of(section(lines) + line_bytes(last).take(come)) is Err,
        masque::reply_of(
            section(lines) + line_bytes(last).take(come),
        )->Err_0 is BadResponse,
        masque::reply_of(section(lines) + (seq![other] + rest)) is Err,
        masque::reply_of(section(lines) + (seq![other] + rest))->Err_0 is BadResponse,
{
    let part = line_bytes(last).take(come);
    lemma_line_cut(section(lines), last, come);
    lemma_bad_tail(lines, part);
    let odd = seq![other] + rest;
    assert((section(lines) + odd)[section(lines).len() as int] == other);
    lemma_bad_tail(lines, odd);
}

proof fn lemma_bad_tail(lines: Seq<Line>, tail: Seq<u8>)
    requires
        are_lines(lines),
        tail.len() > 0,
        (section(lines) + tail).len() <= usize::MAX,
        qpack::line_at(section(lines) + tail, section(lines).len() as int) is Err,
    ensures
        masque::reply_of(section(lines) + tail) is Err,
        masque::reply_of(section(lines) + tail)->Err_0 is BadResponse,
{
    let buf = section(lines) + tail;
    let head = seq![0u8, 0];
    qpack::lemma_prefix_max(8);
    qpack::lemma_prefix_max(7);
    assert(buf[0] == 0 && buf[1] == 0);
    lemma_short_integer(buf, 0, 8, 256, 0);
    lemma_short_integer(buf, 1, 7, 128, 0);
    assert(buf =~= head + lines_bytes(lines) + tail);
    lemma_lines_then(head, lines, tail);
}

// ---------------------------------------------------------------------------
// Huffman codes

/// The code and its length in bits of the characters with codes of up to seven bits,
/// and of the two capital letters with eight.
pub open spec fn code_of(c: u8) -> (int, nat) {
    if 0x30 <= c <= 0x32 {
        (c - 0x30, 5)
    } else if c == 0x61 {
        (3, 5)
    } else if c == 0x63 {
        (4, 5)
    } else if c == 0x65 {
        (5, 5)
    } else if c == 0x69 {
        (6, 5)
    } else if c == 0x6f {
        (7, 5)
    } else if c == 0x73 {
        (8, 5)
    } else if c == 0x74 {
        (9, 5)
    } else if c == 0x20 {
        (0x14, 6)
    } else if c == 0x25 {
        (0x15, 6)
    } else if 0x2d <= c <= 0x2f {
        (0x16 + c - 0x2d, 6)
    } else if 0x33 <= c <= 0x39 {
        (0x19 + c - 0x33, 6)
    } else if c == 0x3d {
        (0x20, 6)
    } else if c == 0x41 {
        (0x21, 6)
    } else if c == 0x5f {
        (0x22, 6)
    } else if c == 0x62 {
        (0x23, 6)
    } else if c == 0x64 {
        (0x24, 6)
    } else if 0x66 <= c <= 0x68 {
        (0x25 + c - 0x66, 6)
    } else if 0x6c <= c <= 0x6e {
        (0x28 + c - 0x6c, 6)
    } else if c == 0x70 {
        (0x2b, 6)
    } else if c == 0x72 {
        (0x2c, 6)
    } else if c == 0x75 {
        (0x2d, 6)
    } else if c == 0x3a {
        (0x5c, 7)
    } else if 0x42 <= c <= 0x57 {
        (0x5d + c - 0x42, 7)
    } else if c == 0x59 {
        (0x73, 7)
    } else if 0x6a <= c <= 0x6b {
        (0x74 + c - 0x6a, 7)
    } else if c == 0x71 {
        (0x76, 7)
    } else if 0x76 <= c <= 0x7a {
        (0x77 + c - 0x76, 7)
    } else if c == 0x58 {
        (0xfc, 8)
    } else {
        (0xfd, 8)
    }
}

/// A letter, a digit, or one of the other characters with a short code.
pub open spec fn has_short_code(c: u8) -> bool {
    ||| 0x30 <= c <= 0x3a
    ||| 0x41 <= c <= 0x5a
    ||| 0x61 <= c <= 0x7a
    ||| c == 0x20 || c == 0x25 || 0x2d <= c <= 0x2f || c == 0x3d || c == 0x5f
}

/// The codes of a text, one after the other.
pub open spec fn codes_of(text: Seq<u8>) -> Seq<bool>
    decreases text.len(),
{
    if text.len() == 0 {
        Seq::empty()
    } else {
        huffman::low_bits(code_of(text[0]).0, code_of(text[0]).1) + codes_of(text.drop_first())
    }
}

/// The codes of letters, digits and the like, and fewer than eight ones behind them,
/// spell the text that they are the codes of.
pub proof fn lemma_huffman_text(text: Seq<u8>, padding: Seq<bool>)
    requires
        forall|i: int| 0 <= i < text.len() ==> has_short_code(#[trigger] text[i]),
        padding.len() < 8,
        forall|i: int| 0 <= i < padding.len() ==> padding[i],
    ensures
        huffman::spells(codes_of(text) + padding, text),
    decreases text.len(),
{
    let bits = codes_of(text) + padding;
    if text.len() == 0 {
        assert(bits =~= padding);
    } else {
        let rest = text.drop_first();
        assert(has_short_code(text[0]));
        assert forall|i: int| 0 <= i < rest.len() implies has_short_code(#[trigger] rest[i]) by {
            assert(rest[i] == text[i + 1]);
        }
        lemma_huffman_text(rest, padding);
        let (code, len) = code_of(text[0]);
        let first = huffman::low_bits(code, len);
        lemma_code(text[0]);
        let n = len as int;
        assert(bits.take(n) =~= first);
        assert(bits.skip(n) =~= codes_of(rest) + padding);
        assert(huffman::begins_with_symbol(bits, n, text[0]));
    }
}

proof fn lemma_code(c: u8)
    requires
        has_short_code(c),
    ensures
        ({
            let (code, len) = code_of(c);
            let bits = huffman::low_bits(code, len);
            &&& bits.len() == len
            &&& huffman::code_rank(bits) is Some
            &&& huffman::code_rank(bits)->Some_0 < huffman::EOS_RANK
            &&& huffman::symbol_at(huffman::code_rank(bits)->Some_0) == c
        }),
{
    let (code, len) = code_of(c);
    let bits = huffman::low_bits(code, len);
    reveal(pow);
    reveal_with_fuel(pow, 9);
    lemma_low_bits(code, len);
    huffman::lemma_short_codes();
    let rank = huffman::code_rank(bits)->Some_0;
    lemma_short_symbols(c, rank);
}

proof fn lemma_short_symbols(c: u8, rank: int)
    requires
        has_short_code(c),
        ({
            let (code, len) = code_of(c);
            rank == if len == 5 {
                code
            } else if len == 6 {
                10 + code - 20
            } else if len == 7 {
                36 + code - 92
            } else {
                68 + code - 248
            }
        }),
    ensures
        0 <= rank < 74,
        huffman::symbol_at(rank) == c,
{
    reveal(huffman::symbol_at);
}

proof fn lemma_low_bits(v: int, n: nat)
    requires
        0 <= v < pow(2, n),
    ensures
        huffman::low_bits(v, n).len() == n,
        huffman::bits_value(huffman::low_bits(v, n)) == v,
    decreases n,
{
    reveal(pow);
    if n > 0 {
        let m = (n - 1) as nat;
        assert(v / 2 < pow(2, m));
        lemma_low_bits(v / 2, m);
        let bits = huffman::low_bits(v, n);
        assert(bits.drop_last() =~= huffman::low_bits(v / 2, m));
    } else {
        assert(huffman::low_bits(v, n) =~= Seq::empty());
    }
}

// ---------------------------------------------------------------------------
// Frames

/// A number in one byte below 64, and in two, marked by 0x40, below 16384.
pub open spec fn small_number(n: nat) -> Seq<u8> {
    if n < 64 {
        seq![n as u8]
    } else {
        seq![(0x40 + n / 256) as u8, (n % 256) as u8]
    }
}

/// A frame on the wire: type, size, payload.
pub open spec fn wire_frame(kind: nat, payload: Seq<u8>) -> Seq<u8> {
    small_number(kind) + small_number(payload.len()) + payload
}

/// A frame whose numbers are below 16384.
pub open spec fn is_frame(f: (nat, Seq<u8>)) -> bool {
    f.0 < 16384 && f.1.len() < 16384
}

/// Frames one after the other.
pub open spec fn wire_frames(frames: Seq<(nat, Seq<u8>)>) -> Seq<u8>
    decreases frames.len(),
{
    if frames.len() == 0 {
        Seq::empty()
    } else {
        wire_frame(frames[0].0, frames[0].1) + wire_frames(frames.drop_first())
    }
}

proof fn lemma_small_number(n: nat)
    requires
        n < 16384,
    ensures
        qpack::varint_bytes(n as u64) == small_number(n),
{
    reveal_with_fuel(wire::be_bytes, 3);
    let v = n as u64;
    if n < 64 {
        assert(wire::be_bytes(v as nat, 1) =~= small_number(n));
    } else {
        let w = (v + 0x4000) as nat;
        assert(w / 256 == 0x40 + n / 256);
        assert(w % 256 == n % 256);
        assert(wire::be_bytes(w, 2) =~= small_number(n));
    }
}

proof fn lemma_wire_frame(kind: nat, payload: Seq<u8>)
    requires
        is_frame((kind, payload)),
    ensures
        qpack::frame_bytes(kind as u64, payload) == wire_frame(kind, payload),
        wire_frame(kind, payload).len() > 0,
{
    lemma_small_number(kind);
    lemma_small_number(payload.len());
}

/// A frame that has come whole is read as its type, its payload and its size, whatever
/// follows; of a frame that has not come whole nothing is read.
pub proof fn lemma_frame(kind: nat, payload: Seq<u8>, after: Seq<u8>, come: int)
    requires
        is_frame((kind, payload)),
    ensures
        qpack::frame_at(wire_frame(kind, payload) + after) == Some(
            (kind, payload, wire_frame(kind, payload).len() as int),
        ),
        0 <= come < wire_frame(kind, payload).len() ==> qpack::frame_at(
            wire_frame(kind, payload).take(come),
        ) is None,
{
    lemma_wire_frame(kind, payload);
    qpack::lemma_frame_read_back(kind as u64, payload, after);
    let whole = wire_frame(kind, payload);
    if 0 <= come < whole.len() {
        let buf = whole.take(come);
        let a = small_number(kind);
        let b = small_number(payload.len());
        let n = a.len() as int;
        let m = b.len() as int;
        lemma_small_number(kind);
        lemma_small_number(payload.len());
        if come > 0 {
            assert(buf[0] == a[0]);
        }
        if come >= n {
            assert(buf =~= a + buf.skip(n));
            qpack::lemma_varint_read_back(kind as u64, buf.skip(n));
            let rest = buf.skip(n);
            if rest.len() > 0 {
                assert(rest[0] == b[0]);
            }
            if come >= n + m {
                assert(rest =~= b + buf.skip(n + m));
                qpack::lemma_varint_read_back(payload.len() as u64, buf.skip(n + m));
            }
        }
    }
}

proof fn lemma_headers_behind(before: Seq<u8>, frames: Seq<(nat, Seq<u8>)>, tail: Seq<u8>, left: nat)
    requires
        forall|i: int|
            0 <= i < frames.len() ==> is_frame(#[trigger] frames[i]) && frames[i].0 != 1,
        frames.len() <= left,
    ensures
        masque::find_headers(before + wire_frames(frames) + tail, before.len() as int, left)
            == masque::find_headers(
            before + wire_frames(frames) + tail,
            (before.len() + wire_frames(frames).len()) as int,
            (left - frames.len()) as nat,
        ),
    decreases frames.len(),
{
    let buf = before + wire_frames(frames) + tail;
    if frames.len() > 0 {
        let rest = frames.drop_first();
        let f = frames[0];
        let bytes = wire_frame(f.0, f.1);
        assert(is_frame(frames[0]) && frames[0].0 != 1);
        assert forall|i: int| 0 <= i < rest.len() implies is_frame(#[trigger] rest[i]) && rest[i].0
            != 1 by {
            assert(rest[i] == frames[i + 1]);
        }
        assert(buf.skip(before.len() as int) =~= bytes + (wire_frames(rest) + tail));
        lemma_frame(f.0, f.1, wire_frames(rest) + tail, 0);
        assert(buf =~= (before + bytes) + wire_frames(rest) + tail);
        lemma_headers_behind(before + bytes, rest, tail, (left - 1) as nat);
    }
}

/// The response is the first frame of type 1, behind fewer than eight frames of other
/// types, and is waited for until it is whole; eight frames of other types are no
/// response.
pub proof fn lemma_response_frame(
    frames: Seq<(nat, Seq<u8>)>,
    payload: Seq<u8>,
    after: Seq<u8>,
    come: int,
)
    requires
        forall|i: int|
            0 <= i < frames.len() ==> is_frame(#[trigger] frames[i]) && frames[i].0 != 1,
        payload.len() < 16384,
    ensures
        ({
            let ahead = wire_frames(frames);
            let response = wire_frame(1, payload);
            &&& frames.len() < 8 ==> masque::find_headers(
                ahead + response + after,
                0,
                MAX_SKIPPED_FRAMES as nat,
            ) == HeadersFound::Payload(payload, (ahead.len() + response.len()) as int)
            &&& frames.len() < 8 && 0 <= come < response.len() ==> masque::find_headers(
                ahead + response.take(come),
                0,
                MAX_SKIPPED_FRAMES as nat,
            ) == HeadersFound::NotYet
            &&& frames.len() == 8 ==> masque::find_headers(
                ahead + after,
                0,
                MAX_SKIPPED_FRAMES as nat,
            ) == HeadersFound::TooMany
        }),
{
    let ahead = wire_frames(frames);
    let response = wire_frame(1, payload);
    let none = Seq::<u8>::empty();
    let left = MAX_SKIPPED_FRAMES as nat;
    if frames.len() < 8 {
        lemma_frame(1, payload, after, come);
        lemma_headers_behind(none, frames, response + after, left);
        let buf = none + ahead + (response + after);
        assert(buf =~= ahead + response + after);
        assert(buf.skip(ahead.len() as int) =~= response + after);
        if 0 <= come < response.len() {
            let part = response.take(come);
            lemma_headers_behind(none, frames, part, left);
            assert(none + ahead + part =~= ahead + part);
            assert((ahead + part).skip(ahead.len() as int) =~= part);
        }
    }
    if frames.len() == 8 {
        lemma_headers_behind(none, frames, after, left);
        assert(none + ahead + after =~= ahead + after);
    }
}

/// The payloads of the frames of type 0, one after the other.
pub open spec fn payloads(frames: Seq<(nat, Seq<u8>)>) -> Seq<u8>
    decreases frames.len(),
{
    if frames.len() == 0 {
        Seq::empty()
    } else if frames[0].0 == 0 {
        frames[0].1 + payloads(frames.drop_first())
    } else {
        payloads(frames.drop_first())
    }
}

/// The tunnelled bytes are the payloads of the frames of type 0 in their order, and
/// nothing else; a frame that has not come whole is left where it is.
pub proof fn lemma_tunnelled_bytes(
    before: Seq<u8>,
    frames: Seq<(nat, Seq<u8>)>,
    last: (nat, Seq<u8>),
    come: int,
)
    requires
        forall|i: int| 0 <= i < frames.len() ==> is_frame(#[trigger] frames[i]),
        is_frame(last),
        0 <= come < wire_frame(last.0, last.1).len(),
    ensures
        masque::tunnelled(
            before + wire_frames(frames) + wire_frame(last.0, last.1).take(come),
            before.len() as int,
        ) == (payloads(frames), (before.len() + wire_frames(frames).len()) as int),
    decreases frames.len(),
{
    let part = wire_frame(last.0, last.1).take(come);
    let buf = before + wire_frames(frames) + part;
    let pos = before.len() as int;
    if frames.len() == 0 {
        assert(buf.skip(pos) =~= part);
        lemma_frame(last.0, last.1, Seq::empty(), come);
    } else {
        let rest = frames.drop_first();
        let f = frames[0];
        let bytes = wire_frame(f.0, f.1);
        assert(is_frame(frames[0]));
        assert forall|i: int| 0 <= i < rest.len() implies is_frame(#[trigger] rest[i]) by {
            assert(rest[i] == frames[i + 1]);
        }
        assert(buf.skip(pos) =~= bytes + (wire_frames(rest) + part));
        lemma_frame(f.0, f.1, wire_frames(rest) + part, 0);
        lemma_wire_frame(f.0, f.1);
        assert(buf =~= (before + bytes) + wire_frames(rest) + part);
        lemma_tunnelled_bytes(before + bytes, rest, last, come);
    }
}

// ---------------------------------------------------------------------------
// Requests

/// The size of a string in a field section, in seven bits and as many bytes more as it
/// needs.
pub open spec fn string_size(n: nat) -> Seq<u8> {
    if n < 127 {
        seq![n as u8]
    } else if n < 255 {
        seq![127u8, (n - 127) as u8]
    } else {
        seq![127u8, (128 + (n - 127) % 128) as u8, ((n - 127) / 128) as u8]
    }
}

proof fn lemma_string_size(s: Seq<u8>)
    requires
        s.len() < 16384,
    ensures
        qpack::string_bytes(s) == string_size(s.len()) + s,
{
    qpack::lemma_prefix_max(7);
    let n = s.len();
    if n < 127 {
        let v = n as u8;
        assert(0u8 | v == v) by (bit_vector);
    } else {
        assert(0u8 | 127u8 == 127u8) by (bit_vector);
        reveal_with_fuel(qpack::continuation_bytes, 3);
        assert(qpack::integer_bytes(n, 7, 0) =~= string_size(n));
    }
}

/// The request for a target: the method CONNECT as static entry 15, the authority under
/// static name 0, and the token under static name 84 as a line that is never indexed.
pub proof fn lemma_connect_request(authority: Seq<u8>, token: Seq<u8>)
    requires
        authority.len() < 4096,
        token.len() < 8192,
    ensures
        qpack::connect_section(authority, token) == seq![0u8, 0, 0xcf, 0x50] + string_size(
            authority.len(),
        ) + authority + seq![0x7fu8, 0x45] + string_size(token.len()) + token,
        qpack::frame_bytes(qpack::FRAME_HEADERS, qpack::connect_section(authority, token))
            == wire_frame(1, qpack::connect_section(authority, token)),
{
    qpack::lemma_prefix_max(6);
    qpack::lemma_prefix_max(4);
    lemma_string_size(authority);
    lemma_string_size(token);
    assert(0xc0u8 | 15u8 == 0xcfu8) by (bit_vector);
    assert(0x50u8 | 0u8 == 0x50u8) by (bit_vector);
    assert(0x70u8 | 15u8 == 0x7fu8) by (bit_vector);
    assert(qpack::continuation_bytes(69) =~= seq![0x45u8]);
    assert(qpack::integer_bytes(84, 4, 0x70) =~= seq![0x7fu8, 0x45]);
    assert(qpack::connect_section(authority, token) =~= seq![0u8, 0, 0xcf, 0x50] + string_size(
        authority.len(),
    ) + authority + seq![0x7fu8, 0x45] + string_size(token.len()) + token);
    lemma_wire_frame(1, qpack::connect_section(authority, token));
}

/// Tunnelled bytes are sent in a frame of type 0.
pub proof fn lemma_data_frame(payload: Seq<u8>)
    requires
        payload.len() < 16384,
    ensures
        qpack::frame_bytes(qpack::FRAME_DATA, payload) == wire_frame(0, payload),
{
    lemma_wire_frame(0, payload);
}

/// A variable-length integer has one byte below 64, two below 16384 and four below
/// 2^30; the top two bits of the first say which, and the others are the number, high
/// byte first.
pub proof fn lemma_variable_integer(n: u32)
    requires
        n < 0x4000_0000,
    ensures
        n < 16384 ==> qpack::varint_bytes(n as u64) == small_number(n as nat),
        16384 <= n ==> qpack::varint_bytes(n as u64) == names::four_bytes(
            (n + 0x8000_0000) as u32,
        ),
{
    if n < 16384 {
        lemma_small_number(n as nat);
    } else {
        lemma_four_bytes((n + 0x8000_0000) as u32);
    }
}

proof fn lemma_four_bytes(n: u32)
    ensures
        wire::be_bytes(n as nat, 4) == names::four_bytes(n),
{
    reveal_with_fuel(wire::be_bytes, 5);
    let v = n as nat;
    assert(v / 256 / 256 == n / 0x1_0000);
    assert(v / 256 / 256 / 256 == n / 0x100_0000);
    assert(wire::be_bytes(v, 4) =~= names::four_bytes(n));
}

// ---------------------------------------------------------------------------
// Where the edge is

/// Ports are tried in the order that they were given in, but 443 is tried last; without
/// any, 443 is the only one.
pub proof fn lemma_port_order(ports: Seq<u16>, more: Seq<u16>)
    requires
        forall|i: int| 0 <= i < ports.len() ==> ports[i] != 443,
        forall|i: int| 0 <= i < more.len() ==> more[i] != 443,
    ensures
        masque::port_order(Seq::empty()) == seq![443u16],
        ports.len() > 0 ==> masque::port_order(ports) == ports,
        masque::port_order(ports + seq![443u16] + more) == ports + more + seq![443u16],
{
    lemma_no_last_port(ports);
    lemma_no_last_port(more);
    let all = ports + seq![443u16] + more;
    lemma_other_ports(ports + seq![443u16], more);
    lemma_other_ports(ports, seq![443u16]);
    assert(seq![443u16].drop_last() =~= Seq::empty());
    assert(masque::other_ports(seq![443u16].drop_last()) =~= Seq::empty());
    assert(all[ports.len() as int] == 443);
    assert(all.contains(443));
    assert(masque::port_order(all) =~= ports + more + seq![443u16]);
    assert(masque::port_order(Seq::empty()) =~= seq![443u16]);
}

proof fn lemma_no_last_port(ports: Seq<u16>)
    requires
        forall|i: int| 0 <= i < ports.len() ==> ports[i] != 443,
    ensures
        masque::other_ports(ports) == ports,
    decreases ports.len(),
{
    if ports.len() > 0 {
        lemma_no_last_port(ports.drop_last());
        assert(ports.drop_last().push(ports.last()) =~= ports);
    } else {
        assert(masque::other_ports(ports) =~= ports);
    }
}

proof fn lemma_other_ports(a: Seq<u16>, b: Seq<u16>)
    ensures
        masque::other_ports(a + b) == masque::other_ports(a) + masque::other_ports(b),
    decreases b.len(),
{
    if b.len() == 0 {
        assert(a + b =~= a);
        assert(masque::other_ports(a) + masque::other_ports(b) =~= masque::other_ports(a));
    } else {
        assert((a + b).drop_last() =~= a + b.drop_last());
        lemma_other_ports(a, b.drop_last());
        let x = masque::other_ports(a);
        let y = masque::other_ports(b.drop_last());
        assert((x + y).push(b.last()) =~= x + y.push(b.last()));
    }
}

/// A host that is an address is tried on every port, in their order; any other host on
/// none.
pub proof fn lemma_addrs_on(host: Seq<char>, ports: Seq<u16>)
    ensures
        addr::ip_octets(host) is None ==> masque::addrs_on(host, ports).len() == 0,
        addr::ip_octets(host) is Some ==> masque::addrs_on(host, ports).len() == ports.len(),
        forall|i: int|
            0 <= i < ports.len() && addr::ip_octets(host) is Some ==> #[trigger] masque::addrs_on(
                host,
                ports,
            )[i] == (addr::ip_octets(host)->Some_0, ports[i], 0u32),
{
}

} // verus!
