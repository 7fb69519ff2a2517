//! The few pieces of QPACK (RFC 9204) and HTTP/3 framing (RFC 9114) that a
//! plain CONNECT needs.
//!
//! Requests refer to the static table only, so the field section prefix is
//! always `00 00`. The `authorization` line is a never-indexed literal. There
//! is no `host` line: the authority is an address, and a host line with another
//! value would make the edge reset the stream.

use crate::outbound::masque::huffman;
use crate::text::utf8_text;
use crate::wire;
use vstd::arithmetic::power::*;
use vstd::prelude::*;
use vstd::utf8::*;

verus! {

pub const FRAME_DATA: u64 = 0x00;

pub const FRAME_HEADERS: u64 = 0x01;

pub const FRAME_SETTINGS: u64 = 0x04;

pub const STREAM_CONTROL: u8 = 0x00;

// ---------------------------------------------------------------------------
// Prefix integers (RFC 7541, section 5.1)

/// The largest value of `bits` bits, which announces continuation bytes.
pub open spec fn prefix_max(bits: u8) -> nat {
    (pow(2, bits as nat) - 1) as nat
}

/// Seven bits per byte, least significant first; the high bit marks that
/// another byte follows.
pub open spec fn continuation_bytes(rest: nat) -> Seq<u8>
    decreases rest,
{
    if rest < 128 {
        seq![rest as u8]
    } else {
        seq![(rest % 128 + 128) as u8] + continuation_bytes(rest / 128)
    }
}

/// The bytes of a prefix integer whose first byte carries `high` in the bits
/// above the prefix.
pub open spec fn integer_bytes(value: nat, bits: u8, high: u8) -> Seq<u8> {
    if value < prefix_max(bits) {
        seq![high | (value as u8)]
    } else {
        seq![high | (prefix_max(bits) as u8)] + continuation_bytes(
            (value - prefix_max(bits)) as nat,
        )
    }
}

/// The number that continuation bytes add: the low seven bits of each, least
/// significant first.
pub open spec fn continuation_value(s: Seq<u8>) -> nat
    decreases s.len(),
{
    if s.len() == 0 {
        0
    } else {
        (s[0] % 128) as nat + 128 * continuation_value(s.drop_first())
    }
}

/// How many bytes from `pos` on have the high bit set before the first that has
/// not, or before the end.
pub open spec fn high_bit_run(buf: Seq<u8>, pos: int) -> nat
    decreases buf.len() - pos,
{
    if pos < buf.len() && buf[pos] >= 128 {
        1 + high_bit_run(buf, pos + 1)
    } else {
        0
    }
}

/// More continuation bytes than this are refused.
pub const MAX_CONTINUATION: usize = 9;

/// What a prefix integer at `pos` says and where it ends, or why it cannot be
/// read.
pub open spec fn integer_at(buf: Seq<u8>, pos: int, bits: u8) -> Result<(nat, int), Seq<char>> {
    if pos >= buf.len() {
        Err("整数解析越界"@)
    } else {
        let low = buf[pos] as nat % (prefix_max(bits) + 1);
        let run = high_bit_run(buf, pos + 1);
        if low < prefix_max(bits) {
            Ok((low, pos + 1))
        } else if run >= MAX_CONTINUATION {
            Err("整数过长"@)
        } else if pos + 1 + run >= buf.len() {
            Err("整数续字节越界"@)
        } else {
            Ok((low + continuation_value(buf.subrange(pos + 1, pos + 2 + run)), pos + 2 + run))
        }
    }
}

/// The largest value of each number of bits.
pub proof fn lemma_prefix_max(bits: u8)
    requires
        1 <= bits <= 8,
    ensures
        bits == 1 ==> prefix_max(bits) == 1,
        bits == 2 ==> prefix_max(bits) == 3,
        bits == 3 ==> prefix_max(bits) == 7,
        bits == 4 ==> prefix_max(bits) == 15,
        bits == 5 ==> prefix_max(bits) == 31,
        bits == 6 ==> prefix_max(bits) == 63,
        bits == 7 ==> prefix_max(bits) == 127,
        bits == 8 ==> prefix_max(bits) == 255,
        1 <= prefix_max(bits) <= 255,
{
    reveal(pow);
    reveal_with_fuel(pow, 9);
}

fn prefix_limit(bits: u8) -> (max: u64)
    requires
        1 <= bits <= 8,
    ensures
        max == prefix_max(bits),
        1 <= max <= 255,
{
    proof {
        lemma_prefix_max(bits);
    }
    match bits {
        1 => 1,
        2 => 3,
        3 => 7,
        4 => 15,
        5 => 31,
        6 => 63,
        7 => 127,
        _ => 255,
    }
}

/// Appends a prefix integer: `high` fills the bits above the `prefix_bits`
/// bits of the prefix.
pub fn encode_integer(out: &mut Vec<u8>, value: u64, prefix_bits: u8, high: u8)
    requires
        1 <= prefix_bits <= 8,
    ensures
        final(out)@ == old(out)@ + integer_bytes(value as nat, prefix_bits, high),
{
    let max = prefix_limit(prefix_bits);
    if value < max {
        out.push(high | (value as u8));
    } else {
        out.push(high | (max as u8));
        let mut rest: u64 = value - max;
        let ghost head = out@;
        while rest >= 128
            invariant
                out@ + continuation_bytes(rest as nat) == head + continuation_bytes(
                    (value - max) as nat,
                ),
            decreases rest,
        {
            let ghost before = out@;
            out.push((rest % 128 + 128) as u8);
            assert(before + continuation_bytes(rest as nat) =~= out@ + continuation_bytes(
                (rest / 128) as nat,
            ));
            rest = rest / 128;
        }
        let ghost before = out@;
        out.push(rest as u8);
        assert(out@ =~= before + continuation_bytes(rest as nat));
    }
}

proof fn lemma_run_step(buf: Seq<u8>, pos: int, p: int)
    requires
        0 <= pos <= p <= buf.len(),
        forall|k: int| pos <= k < p ==> buf[k] >= 128,
    ensures
        high_bit_run(buf, pos) == (p - pos) + high_bit_run(buf, p),
    decreases p - pos,
{
    if pos < p {
        lemma_run_step(buf, pos + 1, p);
    }
}

proof fn lemma_continuation_push(s: Seq<u8>, b: u8)
    ensures
        continuation_value(s.push(b)) == continuation_value(s) + (b % 128) as nat * pow(
            128,
            s.len(),
        ),
    decreases s.len(),
{
    reveal(pow);
    if s.len() == 0 {
        assert(s.push(b).drop_first() =~= Seq::empty());
        assert(continuation_value(s.push(b).drop_first()) == 0);
        assert((b % 128) as nat * pow(128, 0) == (b % 128)) by (nonlinear_arith)
            requires
                pow(128, 0) == 1,
        ;
    } else {
        assert(s.push(b).drop_first() =~= s.drop_first().push(b));
        lemma_continuation_push(s.drop_first(), b);
        let p = pow(128, (s.len() - 1) as nat);
        let d = (b % 128) as nat;
        assert(128 * (d * p) == d * (128 * p)) by (nonlinear_arith);
        let c = continuation_value(s.drop_first());
        assert(128 * (c + d * p) == 128 * c + 128 * (d * p)) by (nonlinear_arith);
    }
}

/// Reads a prefix integer at `pos`.
pub fn decode_integer(buf: &[u8], pos: usize, prefix_bits: u8) -> (r: Result<
    (u64, usize),
    &'static str,
>)
    requires
        1 <= prefix_bits <= 8,
    ensures
        match integer_at(buf@, pos as int, prefix_bits) {
            Ok((v, end)) => r matches Ok(x) && x.0 == v && x.1 == end,
            Err(msg) => r matches Err(e) && e@ == msg,
        },
        r matches Ok(x) ==> pos < x.1 <= buf@.len(),
{
    let max = prefix_limit(prefix_bits);
    if pos >= buf.len() {
        return Err("整数解析越界");
    }
    let low: u64 = buf[pos] as u64 % (max + 1);
    let mut p: usize = pos + 1;
    if low < max {
        return Ok((low, p));
    }
    let mut value: u64 = low;
    let mut weight: u64 = 1;
    let mut n: usize = 0;
    proof {
        reveal(pow);
        assert(buf@.subrange(pos + 1, pos + 1) =~= Seq::empty());
    }
    loop
        invariant
            1 <= prefix_bits <= 8,
            pos < buf@.len(),
            low == max,
            max == prefix_max(prefix_bits),
            low == buf@[pos as int] as nat % (prefix_max(prefix_bits) + 1),
            p == pos + 1 + n,
            p <= buf@.len(),
            n < MAX_CONTINUATION,
            weight == pow(128, n as nat),
            low <= 255,
            value < 255 + weight,
            value == low + continuation_value(buf@.subrange(pos + 1, p as int)),
            forall|k: int| pos + 1 <= k < p ==> buf@[k] >= 128,
        decreases buf@.len() - p,
    {
        proof {
            lemma_run_step(buf@, pos + 1, p as int);
        }
        if p >= buf.len() {
            return Err("整数续字节越界");
        }
        let b: u8 = buf[p];
        let digit: u64 = (b % 128) as u64;
        proof {
            reveal(pow);
            lemma_weight(n as nat);
            lemma_continuation_push(buf@.subrange(pos + 1, p as int), b);
            assert(buf@.subrange(pos + 1, p + 1) =~= buf@.subrange(pos + 1, p as int).push(b));
            assert(digit * weight <= 127 * weight) by (nonlinear_arith)
                requires
                    digit <= 127,
                    0 <= weight,
            ;
        }
        value = value + digit * weight;
        p += 1;
        if b < 128 {
            proof {
                assert(high_bit_run(buf@, p - 1) == 0);
            }
            return Ok((value, p));
        }
        n += 1;
        if n >= MAX_CONTINUATION {
            proof {
                lemma_run_step(buf@, pos + 1, p as int);
            }
            return Err("整数过长");
        }
        weight = weight * 128;
    }
}

proof fn lemma_weight(n: nat)
    requires
        n < 9,
    ensures
        1 <= pow(128, n) <= 0x100_0000_0000_0000,
        n == 8 ==> pow(128, n) == 0x100_0000_0000_0000,
        pow(128, (n + 1) as nat) == 128 * pow(128, n),
{
    reveal(pow);
    reveal_with_fuel(pow, 10);
}

fn skip_integer(buf: &[u8], pos: usize, prefix_bits: u8) -> (r: Result<usize, &'static str>)
    requires
        1 <= prefix_bits <= 8,
    ensures
        match integer_at(buf@, pos as int, prefix_bits) {
            Ok((v, end)) => r matches Ok(x) && x == end,
            Err(msg) => r matches Err(e) && e@ == msg,
        },
        r matches Ok(x) ==> pos < x <= buf@.len(),
{
    match decode_integer(buf, pos, prefix_bits) {
        Ok((_, p)) => Ok(p),
        Err(e) => Err(e),
    }
}

/// Reading a prefix integer back gives the number and the place after it, as
/// long as the number fits in the continuation bytes that a reader accepts.
pub proof fn lemma_integer_read_back(before: Seq<u8>, value: nat, bits: u8, high: u8, after: Seq<u8>)
    requires
        1 <= bits <= 8,
        high as nat % (prefix_max(bits) + 1) == 0,
        value < prefix_max(bits) + 0x8000_0000_0000_0000,
    ensures
        integer_at(before + integer_bytes(value, bits, high) + after, before.len() as int, bits)
            == Ok::<(nat, int), Seq<char>>(
            (value, (before.len() + integer_bytes(value, bits, high).len()) as int),
        ),
{
    lemma_prefix_max(bits);
    let max = prefix_max(bits);
    let code = integer_bytes(value, bits, high);
    let buf = before + code + after;
    let pos = before.len() as int;
    let first = if value < max {
        value as u8
    } else {
        max as u8
    };
    let m = max as u8;
    assert(((high | first) as u16) % (m as u16 + 1) as u16 == first) by (bit_vector)
        requires
            m == 1 || m == 3 || m == 7 || m == 15 || m == 31 || m == 63 || m == 127 || m == 255,
            (high as u16) % ((m as u16 + 1) as u16) == 0,
            first <= m,
    ;
    assert(buf[pos] == high | first);
    if value >= max {
        let rest = (value - max) as nat;
        let tail = continuation_bytes(rest);
        lemma_weight(8);
        lemma_continuation(rest, 9);
        assert(buf.subrange(pos + 1, pos + 1 + tail.len()) =~= tail);
        assert forall|k: int| pos + 1 <= k < pos + tail.len() implies buf[k] >= 128 by {
            assert(buf[k] == tail[k - pos - 1]);
        }
        lemma_run_step(buf, pos + 1, pos + tail.len());
        assert(buf[pos + tail.len()] == tail[tail.len() - 1]);
        assert(high_bit_run(buf, pos + tail.len()) == 0);
    }
}

proof fn lemma_continuation(rest: nat, n: nat)
    requires
        1 <= n,
        rest < pow(128, n),
    ensures
        1 <= continuation_bytes(rest).len() <= n,
        continuation_value(continuation_bytes(rest)) == rest,
        continuation_bytes(rest).last() < 128,
        forall|k: int|
            0 <= k < continuation_bytes(rest).len() - 1 ==> #[trigger] continuation_bytes(rest)[k]
                >= 128,
    decreases n,
{
    reveal(pow);
    let s = continuation_bytes(rest);
    if rest < 128 {
        assert(s.drop_first() =~= Seq::empty());
        assert(continuation_value(s.drop_first()) == 0);
    } else {
        if n == 1 {
            assert(pow(128, 0) == 1);
        }
        let m = (n - 1) as nat;
        assert(rest / 128 < pow(128, m)) by (nonlinear_arith)
            requires
                rest < 128 * pow(128, m),
        ;
        lemma_continuation(rest / 128, m);
        let t = continuation_bytes(rest / 128);
        assert(s.drop_first() =~= t);
        assert forall|k: int| 0 <= k < s.len() - 1 implies #[trigger] s[k] >= 128 by {
            if k > 0 {
                assert(s[k] == t[k - 1]);
            }
        }
        assert(s.last() == t.last());
    }
}

// ---------------------------------------------------------------------------
// QUIC variable-length integers (RFC 9000, section 16) and HTTP/3 frames

/// The shortest of the four forms that holds `value`: the top two bits of the
/// first byte say how many bytes there are.
pub open spec fn varint_bytes(value: u64) -> Seq<u8> {
    if value < 0x40 {
        wire::be_bytes(value as nat, 1)
    } else if value < 0x4000 {
        wire::be_bytes((value + 0x4000) as nat, 2)
    } else if value < 0x4000_0000 {
        wire::be_bytes((value + 0x8000_0000) as nat, 4)
    } else {
        wire::be_bytes((value | 0xc000_0000_0000_0000) as nat, 8)
    }
}

/// How many bytes a variable-length integer with this first byte has.
pub open spec fn varint_size(first: u8) -> int {
    if first < 0x40 {
        1
    } else if first < 0x80 {
        2
    } else if first < 0xc0 {
        4
    } else {
        8
    }
}

/// The variable-length integer that `buf` begins with, and its size.
pub open spec fn varint_at(buf: Seq<u8>) -> Option<(nat, int)> {
    if buf.len() == 0 || buf.len() < varint_size(buf[0]) {
        None
    } else {
        Some(
            (
                wire::be_value(seq![buf[0] % 64] + buf.subrange(1, varint_size(buf[0]))),
                varint_size(buf[0]),
            ),
        )
    }
}

/// Appends a variable-length integer.
pub fn write_varint(out: &mut Vec<u8>, value: u64)
    ensures
        final(out)@ == old(out)@ + varint_bytes(value),
{
    if value < 0x40 {
        out.push(value as u8);
        proof {
            reveal_with_fuel(wire::be_bytes, 2);
        }
    } else if value < 0x4000 {
        wire::push_u16(out, (value + 0x4000) as u16);
    } else if value < 0x4000_0000 {
        wire::push_u32(out, (value + 0x8000_0000) as u32);
    } else {
        wire::push_u64(out, value | 0xc000_0000_0000_0000);
    }
}

/// How many bytes a variable-length integer has, by its first byte.
pub fn varint_len(first: u8) -> (n: usize)
    ensures
        n == varint_size(first),
        1 <= n <= 8,
{
    if first < 0x40 {
        1
    } else if first < 0x80 {
        2
    } else if first < 0xc0 {
        4
    } else {
        8
    }
}

/// Reads the variable-length integer at the beginning of `buf`: its value and
/// its size, or nothing if `buf` ends within it.
pub fn read_varint(buf: &[u8]) -> (r: Option<(u64, usize)>)
    ensures
        match varint_at(buf@) {
            Some((v, n)) => r matches Some(x) && x.0 == v && x.1 == n,
            None => r is None,
        },
        r matches Some(x) ==> x.0 < 0x4000_0000_0000_0000 && 1 <= x.1 <= buf@.len(),
{
    if buf.len() == 0 {
        return None;
    }
    let first: u8 = buf[0];
    let len = varint_len(first);
    if buf.len() < len {
        return None;
    }
    let mut value: u64 = (first % 64) as u64;
    let mut i: usize = 1;
    let ghost head = seq![first % 64];
    proof {
        assert(head.drop_last() =~= Seq::empty());
        assert(wire::be_value(head.drop_last()) == 0);
        assert(head + buf@.subrange(1, 1) =~= head);
        reveal(pow);
        assert(pow(256, 0) == 1);
    }
    while i < len
        invariant
            1 <= i <= len <= 8,
            len <= buf@.len(),
            value == wire::be_value(head + buf@.subrange(1, i as int)),
            value < 64 * pow(256, (i - 1) as nat),
        decreases len - i,
    {
        let ghost s = head + buf@.subrange(1, i as int);
        let ghost t = head + buf@.subrange(1, i + 1);
        proof {
            assert(t.drop_last() =~= s);
            lemma_byte_weight((i - 1) as nat);
        }
        value = value * 256 + buf[i] as u64;
        i += 1;
    }
    proof {
        lemma_byte_weight((len - 1) as nat);
    }
    Some((value, len))
}

proof fn lemma_byte_weight(n: nat)
    requires
        n < 8,
    ensures
        1 <= pow(256, n) <= 0x100_0000_0000_0000,
        n < 7 ==> pow(256, n) <= 0x1_0000_0000_0000,
        pow(256, (n + 1) as nat) == 256 * pow(256, n),
{
    reveal(pow);
    reveal_with_fuel(pow, 9);
}

/// Reading back a variable-length integer gives the number and its size, for
/// every number that the format can hold.
pub proof fn lemma_varint_read_back(value: u64, after: Seq<u8>)
    requires
        value < 0x4000_0000_0000_0000,
    ensures
        varint_at(varint_bytes(value) + after) == Some(
            (value as nat, varint_bytes(value).len() as int),
        ),
        1 <= varint_bytes(value).len() <= 8,
{
    let s = varint_bytes(value);
    let buf = s + after;
    reveal(pow);
    reveal_with_fuel(pow, 9);
    if value < 0x40 {
        reveal_with_fuel(wire::be_bytes, 2);
        let t = seq![buf[0] % 64] + buf.subrange(1, 1);
        assert(t.drop_last() =~= Seq::empty());
        assert(wire::be_value(t.drop_last()) == 0);
    } else if value < 0x4000 {
        let v = (value + 0x4000) as nat;
        wire::lemma_be_bytes_len(v, 2);
        wire::lemma_be_read_back(v, 2);
        wire::lemma_be_value_2(s);
        let t = seq![buf[0] % 64] + buf.subrange(1, 2);
        wire::lemma_be_value_2(t);
    } else if value < 0x4000_0000 {
        let v = (value + 0x8000_0000) as nat;
        wire::lemma_be_bytes_len(v, 4);
        wire::lemma_be_read_back(v, 4);
        wire::lemma_be_value_4(s);
        let t = seq![buf[0] % 64] + buf.subrange(1, 4);
        wire::lemma_be_value_4(t);
    } else {
        assert(value | 0xc000_0000_0000_0000 == value + 0xc000_0000_0000_0000) by (bit_vector)
            requires
                value < 0x4000_0000_0000_0000,
        ;
        let v = (value | 0xc000_0000_0000_0000) as nat;
        wire::lemma_be_bytes_len(v, 8);
        wire::lemma_be_read_back(v, 8);
        wire::lemma_be_value_8(s);
        let t = seq![buf[0] % 64] + buf.subrange(1, 8);
        wire::lemma_be_value_8(t);
    }
}

/// A frame: its type, the size of its payload, the payload.
pub open spec fn frame_bytes(kind: u64, payload: Seq<u8>) -> Seq<u8> {
    varint_bytes(kind) + varint_bytes(payload.len() as u64) + payload
}

fn write_frame(out: &mut Vec<u8>, kind: u64, payload: &[u8])
    ensures
        final(out)@ == old(out)@ + frame_bytes(kind, payload@),
{
    write_varint(out, kind);
    write_varint(out, payload.len() as u64);
    wire::push_bytes(out, payload);
    assert(out@ =~= old(out)@ + frame_bytes(kind, payload@));
}

/// Wraps a field section in a HEADERS frame.
pub fn headers_frame(qpack_payload: &[u8]) -> (out: Vec<u8>)
    ensures
        out@ == frame_bytes(FRAME_HEADERS, qpack_payload@),
{
    let mut out: Vec<u8> = Vec::new();
    write_frame(&mut out, FRAME_HEADERS, qpack_payload);
    out
}

/// Wraps tunnelled bytes in a DATA frame.
pub fn data_frame(payload: &[u8]) -> (out: Vec<u8>)
    ensures
        out@ == frame_bytes(FRAME_DATA, payload@),
{
    let mut out: Vec<u8> = Vec::new();
    write_frame(&mut out, FRAME_DATA, payload);
    out
}

/// What opens the control stream: the stream type and an empty SETTINGS frame.
pub fn control_stream_prelude() -> (out: Vec<u8>)
    ensures
        out@ == seq![STREAM_CONTROL] + frame_bytes(FRAME_SETTINGS, Seq::empty()),
        out@ == seq![0x00u8, 0x04, 0x00],
{
    let mut out: Vec<u8> = Vec::new();
    out.push(STREAM_CONTROL);
    let empty: Vec<u8> = Vec::new();
    write_frame(&mut out, FRAME_SETTINGS, empty.as_slice());
    proof {
        reveal_with_fuel(wire::be_bytes, 2);
    }
    out
}

/// A frame read off a stream, and how many bytes it took.
#[derive(Debug, PartialEq, Eq)]
pub struct Frame {
    pub kind: u64,
    pub payload: Vec<u8>,
    pub size: usize,
}

/// The frame that `buf` begins with: type, payload and size, unless `buf` ends
/// within it.
pub open spec fn frame_at(buf: Seq<u8>) -> Option<(nat, Seq<u8>, int)> {
    match varint_at(buf) {
        None => None,
        Some((kind, n)) => match varint_at(buf.skip(n)) {
            None => None,
            Some((len, m)) => if buf.len() < n + m + len {
                None
            } else {
                Some((kind, buf.subrange(n + m, n + m + len), n + m + len))
            },
        },
    }
}

/// Reads the frame at the beginning of `buf`, or nothing while it is not whole.
pub fn read_frame(buf: &[u8]) -> (r: Option<Frame>)
    ensures
        match frame_at(buf@) {
            Some((kind, payload, size)) => r matches Some(f) && f.kind == kind && f.payload@
                == payload && f.size == size,
            None => r is None,
        },
        r matches Some(f) ==> 2 <= f.size <= buf@.len(),
{
    let (kind, n) = match read_varint(buf) {
        None => return None,
        Some(x) => x,
    };
    let tail = vstd::slice::slice_subrange(buf, n, buf.len());
    assert(tail@ =~= buf@.skip(n as int));
    let (len, m) = match read_varint(tail) {
        None => return None,
        Some(x) => x,
    };
    if len > (tail.len() - m) as u64 {
        return None;
    }
    let size: usize = n + m + len as usize;
    Some(Frame { kind, payload: wire::bytes_of(buf, n + m, size), size })
}

/// A frame that was written is read back as it was, whatever follows it.
pub proof fn lemma_frame_read_back(kind: u64, payload: Seq<u8>, after: Seq<u8>)
    requires
        kind < 0x4000_0000_0000_0000,
        payload.len() < 0x4000_0000_0000_0000,
    ensures
        frame_at(frame_bytes(kind, payload) + after) == Some(
            (kind as nat, payload, frame_bytes(kind, payload).len() as int),
        ),
{
    let len = payload.len() as u64;
    let a = varint_bytes(kind);
    let b = varint_bytes(len);
    let buf = frame_bytes(kind, payload) + after;
    assert(buf =~= a + (b + payload + after));
    lemma_varint_read_back(kind, b + payload + after);
    let n = a.len() as int;
    assert(buf.skip(n) =~= b + (payload + after));
    lemma_varint_read_back(len, payload + after);
    let m = b.len() as int;
    assert(buf.subrange(n + m, n + m + len) =~= payload);
}

// ---------------------------------------------------------------------------
// The CONNECT request

/// A string literal without Huffman coding: its size and its bytes.
pub open spec fn string_bytes(s: Seq<u8>) -> Seq<u8> {
    integer_bytes(s.len(), 7, 0x00) + s
}

/// The field section of a CONNECT request: the prefix; `:method` as static
/// entry 15; `:authority` (static name 0) and `authorization` (static name 84,
/// never indexed) with literal values.
pub open spec fn connect_section(authority: Seq<u8>, token: Seq<u8>) -> Seq<u8> {
    seq![0x00u8, 0x00] + integer_bytes(15, 6, 0xc0) + integer_bytes(0, 4, 0x50) + string_bytes(
        authority,
    ) + integer_bytes(84, 4, 0x70) + string_bytes(token)
}

fn encode_string(out: &mut Vec<u8>, s: &[u8])
    ensures
        final(out)@ == old(out)@ + string_bytes(s@),
{
    encode_integer(out, s.len() as u64, 7, 0x00);
    wire::push_bytes(out, s);
    assert(out@ =~= old(out)@ + string_bytes(s@));
}

/// The field section of a CONNECT request to `authority` (an address and a
/// port) that carries `bearer_token` as its authorization.
pub fn encode_connect_request(authority: &str, bearer_token: &str) -> (out: Vec<u8>)
    ensures
        out@ == connect_section(encode_utf8(authority@), encode_utf8(bearer_token@)),
{
    let mut out: Vec<u8> = Vec::new();
    out.push(0x00);
    out.push(0x00);
    encode_integer(&mut out, 15, 6, 0xc0);
    encode_integer(&mut out, 0, 4, 0x50);
    encode_string(&mut out, authority.as_bytes());
    encode_integer(&mut out, 84, 4, 0x70);
    encode_string(&mut out, bearer_token.as_bytes());
    assert(out@ =~= connect_section(encode_utf8(authority@), encode_utf8(bearer_token@)));
    out
}

// ---------------------------------------------------------------------------
// The response

/// One line of a field section, as far as the reader distinguishes them.
pub enum FieldLine {
    /// A reference to a table entry.
    Indexed { in_static: bool, index: nat },
    /// A name from a table with a literal value; no such field matters here.
    NameRef,
    /// A literal name with a literal value.
    Literal { name: Seq<u8>, value: Seq<u8> },
}

/// The end of `len` bytes that start at `start`, or why they cannot be there.
pub open spec fn content_end(
    payload: Seq<u8>,
    start: int,
    len: nat,
    overflow: Seq<char>,
    outside: Seq<char>,
) -> Result<int, Seq<char>> {
    if start + len > usize::MAX {
        Err(overflow)
    } else if start + len > payload.len() {
        Err(outside)
    } else {
        Ok(start + len)
    }
}

/// The bytes that a string literal stands for.
pub open spec fn string_meaning(raw: Seq<u8>, huffman: bool) -> Option<Seq<u8>> {
    if huffman {
        huffman::huffman_text(raw)
    } else {
        Some(raw)
    }
}

/// The end of the string literal at `pos`.
pub open spec fn literal_end(payload: Seq<u8>, pos: int) -> Result<int, Seq<char>> {
    match integer_at(payload, pos, 7) {
        Err(e) => Err(e),
        Ok((len, start)) => content_end(payload, start, len, "值长度溢出"@, "值内容越界"@),
    }
}

/// The string literal at `pos` and its end.
pub open spec fn literal_at(payload: Seq<u8>, pos: int) -> Result<(Seq<u8>, int), Seq<char>> {
    if pos >= payload.len() {
        Err("值长度解析越界"@)
    } else {
        match integer_at(payload, pos, 7) {
            Err(e) => Err(e),
            Ok((len, start)) => match content_end(
                payload,
                start,
                len,
                "值长度溢出"@,
                "值内容越界"@,
            ) {
                Err(e) => Err(e),
                Ok(end) => match string_meaning(payload.subrange(start, end), payload[pos] >= 128) {
                    None => Err("Huffman 解码失败"@),
                    Some(text) => Ok((text, end)),
                },
            },
        }
    }
}

/// The field line at `pos` and its end, or why it cannot be read.
pub open spec fn line_at(payload: Seq<u8>, pos: int) -> Result<(FieldLine, int), Seq<char>> {
    let b = payload[pos];
    if b >= 0x80 {
        match integer_at(payload, pos, 6) {
            Err(e) => Err(e),
            Ok((index, end)) => Ok(
                (FieldLine::Indexed { in_static: b >= 0xc0, index }, end),
            ),
        }
    } else if b >= 0x40 {
        match integer_at(payload, pos, 4) {
            Err(e) => Err(e),
            Ok((_, start)) => match literal_end(payload, start) {
                Err(e) => Err(e),
                Ok(end) => Ok((FieldLine::NameRef, end)),
            },
        }
    } else if b >= 0x20 {
        match integer_at(payload, pos, 3) {
            Err(e) => Err(e),
            Ok((len, start)) => match content_end(
                payload,
                start,
                len,
                "字段名长度溢出"@,
                "字段名内容越界"@,
            ) {
                Err(e) => Err(e),
                Ok(name_end) => match string_meaning(
                    payload.subrange(start, name_end),
                    b / 8 % 2 == 1,
                ) {
                    None => Err("Huffman 解码失败"@),
                    Some(name) => match literal_at(payload, name_end) {
                        Err(e) => Err(e),
                        Ok((value, end)) => Ok((FieldLine::Literal { name, value }, end)),
                    },
                },
            },
        }
    } else {
        Err("响应包含未预期的 post-base 字段"@)
    }
}

/// All field lines from `pos` to the end, or why they cannot be read.
pub open spec fn lines_from(payload: Seq<u8>, pos: int) -> Result<Seq<FieldLine>, Seq<char>>
    decreases payload.len() - pos,
{
    if pos >= payload.len() {
        Ok(Seq::empty())
    } else {
        match line_at(payload, pos) {
            Err(e) => Err(e),
            Ok((line, end)) => if end <= pos {
                Ok(seq![line])
            } else {
                match lines_from(payload, end) {
                    Err(e) => Err(e),
                    Ok(rest) => Ok(seq![line] + rest),
                }
            },
        }
    }
}

/// The status code of an entry of the static table, if it is a `:status` entry.
pub open spec fn status_of_entry(index: nat) -> Option<u16> {
    if index == 24 { Some(103) }
    else if index == 25 { Some(200) }
    else if index == 26 { Some(304) }
    else if index == 27 { Some(404) }
    else if index == 28 { Some(503) }
    else if index == 63 { Some(100) }
    else if index == 64 { Some(204) }
    else if index == 65 { Some(206) }
    else if index == 66 { Some(302) }
    else if index == 67 { Some(400) }
    else if index == 68 { Some(403) }
    else if index == 69 { Some(421) }
    else if index == 70 { Some(425) }
    else if index == 71 { Some(500) }
    else { None }
}

/// The status code that a line sets, if any.
pub open spec fn line_status(line: FieldLine) -> Option<u16> {
    match line {
        FieldLine::Indexed { in_static, index } => if in_static {
            status_of_entry(index)
        } else {
            None
        },
        _ => None,
    }
}

/// The status code of the last line that sets one.
pub open spec fn last_status(lines: Seq<FieldLine>) -> Option<u16>
    decreases lines.len(),
{
    if lines.len() == 0 {
        None
    } else if line_status(lines.last()) is Some {
        line_status(lines.last())
    } else {
        last_status(lines.drop_last())
    }
}

/// The line names the data centre where the edge lands.
pub open spec fn is_colo_line(line: FieldLine) -> bool {
    line matches FieldLine::Literal { name, .. } && name == encode_utf8("cf-warp-colo"@)
}

/// The text of the last line that names the data centre, if it is UTF-8.
pub open spec fn last_colo(lines: Seq<FieldLine>) -> Option<Seq<char>>
    decreases lines.len(),
{
    if lines.len() == 0 {
        None
    } else if is_colo_line(lines.last()) {
        if valid_utf8(lines.last()->value) {
            Some(decode_utf8(lines.last()->value))
        } else {
            None
        }
    } else {
        last_colo(lines.drop_last())
    }
}

/// The field lines of a whole section: the two integers of the prefix are
/// skipped.
pub open spec fn section_lines(payload: Seq<u8>) -> Result<Seq<FieldLine>, Seq<char>> {
    match integer_at(payload, 0, 8) {
        Err(e) => Err(e),
        Ok((_, base)) => match integer_at(payload, base, 7) {
            Err(e) => Err(e),
            Ok((_, pos)) => lines_from(payload, pos),
        },
    }
}

/// What matters of the response to a CONNECT: the status, and where the edge
/// landed, which is for display only.
#[derive(Debug, PartialEq, Eq)]
pub struct ResponseHeaders {
    pub status: u16,
    pub colo: Option<String>,
}

fn decode_string(raw: &[u8], huffman: bool) -> (r: Result<Vec<u8>, &'static str>)
    ensures
        match string_meaning(raw@, huffman) {
            Some(text) => r matches Ok(x) && x@ == text,
            None => r matches Err(e) && e@ == "Huffman 解码失败"@,
        },
{
    if huffman {
        match huffman::decode(raw) {
            Ok(text) => Ok(text),
            Err(_) => Err("Huffman 解码失败"),
        }
    } else {
        let out = wire::bytes_of(raw, 0, raw.len());
        assert(out@ =~= raw@);
        Ok(out)
    }
}

fn add_len(
    payload: &[u8],
    start: usize,
    len: u64,
    overflow: &'static str,
    outside: &'static str,
) -> (r: Result<usize, &'static str>)
    requires
        start <= payload@.len(),
    ensures
        match content_end(payload@, start as int, len as nat, overflow@, outside@) {
            Ok(end) => r matches Ok(x) && x == end && start <= x <= payload@.len(),
            Err(msg) => r matches Err(e) && e@ == msg,
        },
{
    if len > (usize::MAX - start) as u64 {
        Err(overflow)
    } else if len > (payload.len() - start) as u64 {
        Err(outside)
    } else {
        Ok(start + len as usize)
    }
}

fn skip_literal_value(payload: &[u8], pos: usize) -> (r: Result<usize, &'static str>)
    ensures
        match literal_end(payload@, pos as int) {
            Ok(end) => r matches Ok(x) && x == end && pos < x <= payload@.len(),
            Err(msg) => r matches Err(e) && e@ == msg,
        },
{
    let (len, start) = match decode_integer(payload, pos, 7) {
        Err(e) => return Err(e),
        Ok(x) => x,
    };
    add_len(payload, start, len, "值长度溢出", "值内容越界")
}

fn read_literal_value(payload: &[u8], pos: usize) -> (r: Result<(Vec<u8>, usize), &'static str>)
    ensures
        match literal_at(payload@, pos as int) {
            Ok((text, end)) => r matches Ok(x) && x.0@ == text && x.1 == end && pos < x.1
                <= payload@.len(),
            Err(msg) => r matches Err(e) && e@ == msg,
        },
{
    if pos >= payload.len() {
        return Err("值长度解析越界");
    }
    let huffman: bool = payload[pos] >= 128;
    let (len, start) = match decode_integer(payload, pos, 7) {
        Err(e) => return Err(e),
        Ok(x) => x,
    };
    let end = match add_len(payload, start, len, "值长度溢出", "值内容越界") {
        Err(e) => return Err(e),
        Ok(x) => x,
    };
    match decode_string(vstd::slice::slice_subrange(payload, start, end), huffman) {
        Err(e) => Err(e),
        Ok(text) => Ok((text, end)),
    }
}

fn static_status(idx: u64) -> (r: Option<u16>)
    ensures
        r == status_of_entry(idx as nat),
{
    match idx {
        24 => Some(103),
        25 => Some(200),
        26 => Some(304),
        27 => Some(404),
        28 => Some(503),
        63 => Some(100),
        64 => Some(204),
        65 => Some(206),
        66 => Some(302),
        67 => Some(400),
        68 => Some(403),
        69 => Some(421),
        70 => Some(425),
        71 => Some(500),
        _ => None,
    }
}

/// Reads the field section of a response: the status of the last line that
/// sets one, and the data centre of the last line that names one.
pub fn decode_headers(payload: &[u8]) -> (r: Result<ResponseHeaders, &'static str>)
    ensures
        match section_lines(payload@) {
            Err(msg) => r matches Err(e) && e@ == msg,
            Ok(lines) => match last_status(lines) {
                None => r matches Err(e) && e@ == "响应头中未找到 :status"@,
                Some(status) => {
                    &&& r matches Ok(h)
                    &&& h.status == status
                    &&& match last_colo(lines) {
                        None => h.colo is None,
                        Some(text) => h.colo matches Some(c) && c@ == text,
                    }
                },
            },
        },
{
    let base = match skip_integer(payload, 0, 8) {
        Err(e) => return Err(e),
        Ok(p) => p,
    };
    let first = match skip_integer(payload, base, 7) {
        Err(e) => return Err(e),
        Ok(p) => p,
    };
    let mut pos: usize = first;
    let mut status: Option<u16> = None;
    let mut colo: Option<String> = None;
    let ghost mut done = Seq::<FieldLine>::empty();
    assert(lines_from(payload@, pos as int) matches Ok(rest) ==> done + rest =~= rest);
    while pos < payload.len()
        invariant
            pos <= payload@.len(),
            section_lines(payload@) == lines_from(payload@, first as int),
            status == last_status(done),
            last_colo(done) == match colo {
                None => None,
                Some(c) => Some(c@),
            },
            lines_from(payload@, first as int) == match lines_from(payload@, pos as int) {
                Err(e) => Err(e),
                Ok(rest) => Ok(done + rest),
            },
        decreases payload@.len() - pos,
    {
        let b: u8 = payload[pos];
        let ghost here = pos as int;
        let ghost line: FieldLine;
        if b >= 0x80 {
            let (idx, end) = match decode_integer(payload, pos, 6) {
                Err(e) => return Err(e),
                Ok(x) => x,
            };
            pos = end;
            proof {
                line = FieldLine::Indexed { in_static: b >= 0xc0, index: idx as nat };
            }
            if b >= 0xc0 {
                if let Some(code) = static_status(idx) {
                    status = Some(code);
                }
            }
        } else if b >= 0x40 {
            let (_, start) = match decode_integer(payload, pos, 4) {
                Err(e) => return Err(e),
                Ok(x) => x,
            };
            pos = match skip_literal_value(payload, start) {
                Err(e) => return Err(e),
                Ok(end) => end,
            };
            proof {
                line = FieldLine::NameRef;
            }
        } else if b >= 0x20 {
            let huffman: bool = b / 8 % 2 == 1;
            let (len, start) = match decode_integer(payload, pos, 3) {
                Err(e) => return Err(e),
                Ok(x) => x,
            };
            let name_end = match add_len(
                payload,
                start,
                len,
                "字段名长度溢出",
                "字段名内容越界",
            ) {
                Err(e) => return Err(e),
                Ok(x) => x,
            };
            let name = match decode_string(
                vstd::slice::slice_subrange(payload, start, name_end),
                huffman,
            ) {
                Err(e) => return Err(e),
                Ok(x) => x,
            };
            let (value, end) = match read_literal_value(payload, name_end) {
                Err(e) => return Err(e),
                Ok(x) => x,
            };
            pos = end;
            proof {
                line = FieldLine::Literal { name: name@, value: value@ };
            }
            if wire::same_bytes(name.as_slice(), "cf-warp-colo".as_bytes()) {
                colo = utf8_text(value);
            }
        } else {
            return Err("响应包含未预期的 post-base 字段");
        }
        proof {
            assert(line_at(payload@, here) == Ok::<(FieldLine, int), Seq<char>>((line, pos as int)));
            let before = done;
            done = done.push(line);
            assert(done.drop_last() =~= before);
            match lines_from(payload@, pos as int) {
                Ok(rest) => {
                    assert(before + (seq![line] + rest) =~= done + rest);
                },
                Err(_) => {},
            }
        }
    }
    assert(lines_from(payload@, pos as int) == Ok::<Seq<FieldLine>, Seq<char>>(Seq::empty()));
    assert(done + Seq::<FieldLine>::empty() =~= done);
    match status {
        None => Err("响应头中未找到 :status"),
        Some(status) => Ok(ResponseHeaders { status, colo }),
    }
}

} // verus!
