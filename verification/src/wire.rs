//! Big-endian integers, the byte order of every protocol the gateway speaks.

use vstd::arithmetic::power::*;
use vstd::prelude::*;

verus! {

/// The `n` least significant bytes of `v`, most significant byte first.
pub open spec fn be_bytes(v: nat, n: nat) -> Seq<u8>
    decreases n,
{
    if n == 0 {
        Seq::empty()
    } else {
        be_bytes(v / 256, (n - 1) as nat).push((v % 256) as u8)
    }
}

/// The number that `s` spells, most significant byte first.
pub open spec fn be_value(s: Seq<u8>) -> nat
    decreases s.len(),
{
    if s.len() == 0 {
        0
    } else {
        be_value(s.drop_last()) * 256 + s.last() as nat
    }
}

/// `be_bytes(v, n)` has `n` bytes.
pub proof fn lemma_be_bytes_len(v: nat, n: nat)
    ensures
        be_bytes(v, n).len() == n,
    decreases n,
{
    if n > 0 {
        lemma_be_bytes_len(v / 256, (n - 1) as nat);
    }
}

/// Reading back a number written in enough bytes gives the number.
pub proof fn lemma_be_read_back(v: nat, n: nat)
    requires
        v < pow(256, n),
    ensures
        be_value(be_bytes(v, n)) == v,
    decreases n,
{
    reveal(pow);
    if n > 0 {
        let m = (n - 1) as nat;
        assert(v / 256 < pow(256, m)) by (nonlinear_arith)
            requires
                v < 256 * pow(256, m),
        ;
        lemma_be_read_back(v / 256, m);
        assert(be_bytes(v, n).drop_last() =~= be_bytes(v / 256, m));
    }
}

/// Two bytes spell their sum with weights 256 and 1.
pub proof fn lemma_be_value_2(s: Seq<u8>)
    requires
        s.len() == 2,
    ensures
        be_value(s) == s[0] * 256 + s[1],
{
    reveal_with_fuel(be_value, 3);
    assert(s.drop_last().drop_last() =~= Seq::empty());
}

/// Four bytes spell their sum with weights 256^3 to 1.
pub proof fn lemma_be_value_4(s: Seq<u8>)
    requires
        s.len() == 4,
    ensures
        be_value(s) == s[0] * 0x1000000 + s[1] * 0x10000 + s[2] * 0x100 + s[3],
{
    reveal_with_fuel(be_value, 5);
    assert(s.drop_last().drop_last() =~= s.take(2));
    lemma_be_value_2(s.take(2));
}

/// Eight bytes spell their sum with weights 256^7 to 1.
pub proof fn lemma_be_value_8(s: Seq<u8>)
    requires
        s.len() == 8,
    ensures
        be_value(s) == s[0] * 0x100_0000_0000_0000 + s[1] * 0x1_0000_0000_0000 + s[2]
            * 0x100_0000_0000 + s[3] * 0x1_0000_0000 + s[4] * 0x1000000 + s[5] * 0x10000 + s[6]
            * 0x100 + s[7],
{
    let s7 = s.drop_last();
    let s6 = s7.drop_last();
    let s5 = s6.drop_last();
    let s4 = s5.drop_last();
    lemma_be_value_4(s4);
    assert(be_value(s5) == be_value(s4) * 256 + s[4]);
    assert(be_value(s6) == be_value(s5) * 256 + s[5]);
    assert(be_value(s7) == be_value(s6) * 256 + s[6]);
}

/// Reads two bytes at `pos`.
pub fn read_u16(buf: &[u8], pos: usize) -> (v: u16)
    requires
        pos + 2 <= buf@.len(),
    ensures
        v == be_value(buf@.subrange(pos as int, pos + 2)),
{
    proof {
        lemma_be_value_2(buf@.subrange(pos as int, pos + 2));
    }
    buf[pos] as u16 * 256 + buf[pos + 1] as u16
}

/// Reads four bytes at `pos`.
pub fn read_u32(buf: &[u8], pos: usize) -> (v: u32)
    requires
        pos + 4 <= buf@.len(),
    ensures
        v == be_value(buf@.subrange(pos as int, pos + 4)),
{
    proof {
        lemma_be_value_4(buf@.subrange(pos as int, pos + 4));
    }
    buf[pos] as u32 * 0x1000000 + buf[pos + 1] as u32 * 0x10000 + buf[pos + 2] as u32 * 0x100
        + buf[pos + 3] as u32
}

/// Appends `v` in two bytes.
pub fn push_u16(out: &mut Vec<u8>, v: u16)
    ensures
        final(out)@ == old(out)@ + be_bytes(v as nat, 2),
{
    out.push((v / 256) as u8);
    out.push((v % 256) as u8);
    proof {
        reveal_with_fuel(be_bytes, 3);
    }
}

/// Appends `v` in four bytes.
pub fn push_u32(out: &mut Vec<u8>, v: u32)
    ensures
        final(out)@ == old(out)@ + be_bytes(v as nat, 4),
{
    let v1: u32 = v / 256;
    let v2: u32 = v1 / 256;
    let v3: u32 = v2 / 256;
    out.push(v3 as u8);
    out.push((v2 % 256) as u8);
    out.push((v1 % 256) as u8);
    out.push((v % 256) as u8);
    proof {
        reveal_with_fuel(be_bytes, 5);
    }
}

/// Appends `v` in eight bytes.
pub fn push_u64(out: &mut Vec<u8>, v: u64)
    ensures
        final(out)@ == old(out)@ + be_bytes(v as nat, 8),
{
    let v1: u64 = v / 256;
    let v2: u64 = v1 / 256;
    let v3: u64 = v2 / 256;
    let v4: u64 = v3 / 256;
    let v5: u64 = v4 / 256;
    let v6: u64 = v5 / 256;
    let v7: u64 = v6 / 256;
    out.push(v7 as u8);
    out.push((v6 % 256) as u8);
    out.push((v5 % 256) as u8);
    out.push((v4 % 256) as u8);
    out.push((v3 % 256) as u8);
    out.push((v2 % 256) as u8);
    out.push((v1 % 256) as u8);
    out.push((v % 256) as u8);
    proof {
        reveal_with_fuel(be_bytes, 9);
    }
}

/// Appends the bytes of `s`.
pub fn push_bytes(out: &mut Vec<u8>, s: &[u8])
    ensures
        final(out)@ == old(out)@ + s@,
{
    let mut i: usize = 0;
    while i < s.len()
        invariant
            i <= s@.len(),
            out@ == old(out)@ + s@.take(i as int),
        decreases s@.len() - i,
    {
        out.push(s[i]);
        i += 1;
    }
    assert(s@.take(i as int) =~= s@);
}

/// The bytes `s[from..to]`.
pub fn bytes_of(s: &[u8], from: usize, to: usize) -> (out: Vec<u8>)
    requires
        from <= to <= s@.len(),
    ensures
        out@ == s@.subrange(from as int, to as int),
{
    let mut out: Vec<u8> = Vec::new();
    let mut i: usize = from;
    while i < to
        invariant
            from <= i <= to <= s@.len(),
            out@ == s@.subrange(from as int, i as int),
        decreases to - i,
    {
        out.push(s[i]);
        i += 1;
    }
    out
}

/// Whether two byte strings are the same.
pub fn same_bytes(a: &[u8], b: &[u8]) -> (r: bool)
    ensures
        r == (a@ == b@),
{
    if a.len() != b.len() {
        return false;
    }
    let mut i: usize = 0;
    while i < a.len()
        invariant
            i <= a@.len(),
            a@.len() == b@.len(),
            a@.take(i as int) == b@.take(i as int),
        decreases a@.len() - i,
    {
        if a[i] != b[i] {
            return false;
        }
        assert(a@.take(i + 1) =~= a@.take(i as int).push(a@[i as int]));
        assert(b@.take(i + 1) =~= b@.take(i as int).push(b@[i as int]));
        i += 1;
    }
    assert(a@.take(i as int) =~= a@);
    assert(b@.take(i as int) =~= b@);
    true
}

/// Where `b` first occurs in `s` at or after `pos`; the length of `s` if nowhere.
pub open spec fn byte_at(s: Seq<u8>, pos: int, b: u8) -> int
    decreases s.len() - pos,
{
    if pos >= s.len() {
        s.len() as int
    } else if s[pos] == b {
        pos
    } else {
        byte_at(s, pos + 1, b)
    }
}

/// Finds the first `b` at or after `pos`.
pub fn find_byte(s: &[u8], pos: usize, b: u8) -> (i: usize)
    requires
        pos <= s@.len(),
    ensures
        i == byte_at(s@, pos as int, b),
        pos <= i <= s@.len(),
        i < s@.len() ==> s@[i as int] == b,
{
    let mut i: usize = pos;
    while i < s.len() && s[i] != b
        invariant
            pos <= i <= s@.len(),
            byte_at(s@, pos as int, b) == byte_at(s@, i as int, b),
        decreases s@.len() - i,
    {
        i += 1;
    }
    i
}

/// `p` occurs in `s` at position `i`.
pub open spec fn bytes_match_at(s: Seq<u8>, p: Seq<u8>, i: int) -> bool {
    0 <= i && i + p.len() <= s.len() && s.subrange(i, i + p.len()) == p
}

/// Where `p` first occurs in `s` at or after `pos`; -1 if nowhere.
pub open spec fn bytes_at(s: Seq<u8>, p: Seq<u8>, pos: int) -> int
    decreases s.len() + 1 - pos,
{
    if pos > s.len() {
        -1
    } else if bytes_match_at(s, p, pos) {
        pos
    } else {
        bytes_at(s, p, pos + 1)
    }
}

/// Finds the first place where `p` occurs in `s`.
pub fn find_bytes(s: &[u8], p: &[u8]) -> (r: Option<usize>)
    ensures
        match r {
            Some(i) => i == bytes_at(s@, p@, 0) && i + p@.len() <= s@.len(),
            None => bytes_at(s@, p@, 0) == -1,
        },
{
    let mut i: usize = 0;
    while i < s.len()
        invariant
            i <= s@.len(),
            bytes_at(s@, p@, 0) == bytes_at(s@, p@, i as int),
        decreases s@.len() - i,
    {
        if s.len() - i >= p.len() {
            let here = bytes_of(s, i, i + p.len());
            if same_bytes(here.as_slice(), p) {
                return Some(i);
            }
        }
        i += 1;
    }
    if p.len() == 0 {
        assert(s@.subrange(i as int, i as int) =~= p@);
        return Some(i);
    }
    assert(bytes_at(s@, p@, i + 1) == -1);
    None
}

} // verus!
