//! The Huffman code of HPACK (RFC 7541, appendix B), which QPACK shares.
//!
//! The code is canonical: within one length the codes are consecutive numbers,
//! and the first code of a length is twice the number that follows the last
//! code of the length before. So the number of codes of each length, together
//! with the symbols in code order, is the whole table.

use vstd::prelude::*;

verus! {

/// Bits in the longest code.
pub const MAX_CODE_LEN: u32 = 30;

/// Position of the end-of-string code in code order; a text never contains it.
pub const EOS_RANK: u32 = 256;

/// The symbols in code order: shorter codes first, then by numeric value.
pub const SYMBOLS: [u8; 256] = [
    48, 49, 50, 97, 99, 101, 105, 111, 115, 116, 32, 37, 45, 46, 47, 51,
    52, 53, 54, 55, 56, 57, 61, 65, 95, 98, 100, 102, 103, 104, 108, 109,
    110, 112, 114, 117, 58, 66, 67, 68, 69, 70, 71, 72, 73, 74, 75, 76,
    77, 78, 79, 80, 81, 82, 83, 84, 85, 86, 87, 89, 106, 107, 113, 118,
    119, 120, 121, 122, 38, 42, 44, 59, 88, 90, 33, 34, 40, 41, 63, 39,
    43, 124, 35, 62, 0, 36, 64, 91, 93, 126, 94, 125, 60, 96, 123, 92,
    195, 208, 128, 130, 131, 162, 184, 194, 224, 226, 153, 161, 167, 172, 176, 177,
    179, 209, 216, 217, 227, 229, 230, 129, 132, 133, 134, 136, 146, 154, 156, 160,
    163, 164, 169, 170, 173, 178, 181, 185, 186, 187, 189, 190, 196, 198, 228, 232,
    233, 1, 135, 137, 138, 139, 140, 141, 143, 147, 149, 150, 151, 152, 155, 157,
    158, 165, 166, 168, 174, 175, 180, 182, 183, 188, 191, 197, 231, 239, 9, 142,
    144, 145, 148, 159, 171, 206, 215, 225, 236, 237, 199, 207, 234, 235, 192, 193,
    200, 201, 202, 205, 210, 213, 218, 219, 238, 240, 242, 243, 255, 203, 204, 211,
    212, 214, 221, 222, 223, 241, 244, 245, 246, 247, 248, 250, 251, 252, 253, 254,
    2, 3, 4, 5, 6, 7, 8, 11, 12, 14, 15, 16, 17, 18, 19, 20,
    21, 23, 24, 25, 26, 27, 28, 29, 30, 31, 127, 220, 249, 10, 13, 22,
];

/// How many codes are `len` bits long, the end-of-string code among them.
pub open spec fn code_count(len: int) -> int {
    if len == 5 { 10 }
    else if len == 6 { 26 }
    else if len == 7 { 32 }
    else if len == 8 { 6 }
    else if len == 10 { 5 }
    else if len == 11 { 3 }
    else if len == 12 { 2 }
    else if len == 13 { 6 }
    else if len == 14 { 2 }
    else if len == 15 { 3 }
    else if len == 19 { 3 }
    else if len == 20 { 8 }
    else if len == 21 { 13 }
    else if len == 22 { 26 }
    else if len == 23 { 29 }
    else if len == 24 { 12 }
    else if len == 25 { 4 }
    else if len == 26 { 15 }
    else if len == 27 { 19 }
    else if len == 28 { 29 }
    else if len == 30 { 4 }
    else { 0 }
}

/// The number that follows the last code of length `len`: the bit strings of
/// that length below it begin with a code, the others do not.
pub open spec fn code_limit(len: int) -> int
    decreases len,
{
    if len <= 0 {
        0
    } else {
        2 * code_limit(len - 1) + code_count(len)
    }
}

/// How many codes are shorter than `len`.
pub open spec fn code_offset(len: int) -> int
    decreases len,
{
    if len <= 1 {
        0
    } else {
        code_offset(len - 1) + code_count(len - 1)
    }
}

/// The number that a bit string spells, most significant bit first.
pub open spec fn bits_value(bits: Seq<bool>) -> int
    decreases bits.len(),
{
    if bits.len() == 0 {
        0
    } else {
        2 * bits_value(bits.drop_last()) + if bits.last() {
            1int
        } else {
            0
        }
    }
}

/// The `n` low bits of `v`, most significant first.
pub open spec fn low_bits(v: int, n: nat) -> Seq<bool>
    decreases n,
{
    if n == 0 {
        Seq::empty()
    } else {
        low_bits(v / 2, (n - 1) as nat).push(v % 2 == 1)
    }
}

/// The bits of a byte string, most significant bit of each byte first.
pub open spec fn bits_of(raw: Seq<u8>) -> Seq<bool>
    decreases raw.len(),
{
    if raw.len() == 0 {
        Seq::empty()
    } else {
        bits_of(raw.drop_last()) + low_bits(raw.last() as int, 8)
    }
}

/// The position in code order of the code `bits`, if `bits` is a code.
pub open spec fn code_rank(bits: Seq<bool>) -> Option<int> {
    let len = bits.len() as int;
    let first = 2 * code_limit(len - 1);
    if 1 <= len <= MAX_CODE_LEN && first <= bits_value(bits) < code_limit(len) {
        Some(code_offset(len) + bits_value(bits) - first)
    } else {
        None
    }
}

/// The symbol at position `rank` in code order.
#[verifier::opaque]
pub open spec fn symbol_at(rank: int) -> u8 {
    SYMBOLS[rank]
}

fn symbol(rank: u32) -> (s: u8)
    requires
        rank < EOS_RANK,
    ensures
        s == symbol_at(rank as int),
{
    reveal(symbol_at);
    SYMBOLS[rank as usize]
}

/// `bits` begins with the code of `symbol`, which is `len` bits long.
pub open spec fn begins_with_symbol(bits: Seq<bool>, len: int, symbol: u8) -> bool {
    &&& 0 <= len <= bits.len()
    &&& code_rank(bits.take(len)) is Some
    &&& code_rank(bits.take(len))->Some_0 < EOS_RANK
    &&& symbol_at(code_rank(bits.take(len))->Some_0) == symbol
}

/// Padding is shorter than a byte and holds ones only.
pub open spec fn is_padding(bits: Seq<bool>) -> bool {
    bits.len() < 8 && forall|i: int| 0 <= i < bits.len() ==> bits[i]
}

/// `bits` are the codes of the bytes of `text`, one after the other, and padding.
pub open spec fn spells(bits: Seq<bool>, text: Seq<u8>) -> bool
    decreases text.len(),
{
    if text.len() == 0 {
        is_padding(bits)
    } else {
        exists|len: int| #[trigger]
            begins_with_symbol(bits, len, text[0]) && spells(bits.skip(len), text.drop_first())
    }
}

/// The limits and positions of the codes of up to eight bits.
pub proof fn lemma_short_codes()
    ensures
        code_limit(4) == 0,
        code_limit(5) == 10,
        code_limit(6) == 46,
        code_limit(7) == 124,
        code_limit(8) == 254,
        code_offset(5) == 0,
        code_offset(6) == 10,
        code_offset(7) == 36,
        code_offset(8) == 68,
{
    reveal_with_fuel(code_limit, 10);
    reveal_with_fuel(code_offset, 10);
}

proof fn lemma_code_rank_range(bits: Seq<bool>)
    requires
        code_rank(bits) is Some,
    ensures
        0 <= code_rank(bits)->Some_0 <= EOS_RANK,
{
    reveal_with_fuel(code_offset, 31);
}

/// Once a bit string begins with a code, every longer one is below the limit.
proof fn lemma_below_limit(bits: Seq<bool>, len: int, longer: int)
    requires
        0 <= len < longer <= bits.len(),
        bits_value(bits.take(len)) < code_limit(len),
    ensures
        bits_value(bits.take(longer)) < 2 * code_limit(longer - 1),
    decreases longer,
{
    assert(bits.take(longer).drop_last() =~= bits.take(longer - 1));
    if longer > len + 1 {
        lemma_below_limit(bits, len, longer - 1);
    }
}

/// No code is the beginning of another.
proof fn lemma_code_is_unique(bits: Seq<bool>, a: int, b: int)
    requires
        0 <= a <= bits.len(),
        0 <= b <= bits.len(),
        code_rank(bits.take(a)) is Some,
        code_rank(bits.take(b)) is Some,
    ensures
        a == b,
{
    if a < b {
        lemma_below_limit(bits, a, b);
    } else if b < a {
        lemma_below_limit(bits, b, a);
    }
}

/// No code is the beginning of padding.
proof fn lemma_padding_has_no_code(bits: Seq<bool>, len: int)
    requires
        is_padding(bits),
        0 <= len <= bits.len(),
    ensures
        code_rank(bits.take(len)) is None,
{
    reveal_with_fuel(code_limit, 9);
    reveal_with_fuel(bits_value, 9);
    let t = bits.take(len);
    if len >= 1 {
        assert(t.drop_last() =~= bits.take(len - 1));
    }
    lemma_ones_value(t);
}

spec fn ones_value(len: int) -> int
    decreases len,
{
    if len <= 0 {
        0
    } else {
        2 * ones_value(len - 1) + 1
    }
}

proof fn lemma_ones_value(bits: Seq<bool>)
    requires
        forall|i: int| 0 <= i < bits.len() ==> bits[i],
    ensures
        bits_value(bits) == ones_value(bits.len() as int),
        bits.len() < 8 ==> ones_value(bits.len() as int) >= code_limit(bits.len() as int),
    decreases bits.len(),
{
    reveal_with_fuel(ones_value, 9);
    reveal_with_fuel(code_limit, 9);
    if bits.len() > 0 {
        lemma_ones_value(bits.drop_last());
    }
}

/// The first symbol of a text is the one whose code the bits begin with.
proof fn lemma_first_symbol(bits: Seq<bool>, len: int, text: Seq<u8>)
    requires
        0 <= len <= bits.len(),
        code_rank(bits.take(len)) is Some,
        spells(bits, text),
    ensures
        text.len() > 0,
        begins_with_symbol(bits, len, text[0]),
        spells(bits.skip(len), text.drop_first()),
{
    if text.len() == 0 {
        lemma_padding_has_no_code(bits, len);
    } else {
        let other = choose|other: int| #[trigger]
            begins_with_symbol(bits, other, text[0]) && spells(
                bits.skip(other),
                text.drop_first(),
            );
        lemma_code_is_unique(bits, len, other);
    }
}

/// A bit string spells at most one text.
pub proof fn lemma_spells_one_text(bits: Seq<bool>, a: Seq<u8>, b: Seq<u8>)
    requires
        spells(bits, a),
        spells(bits, b),
    ensures
        a == b,
    decreases a.len(),
{
    if a.len() == 0 {
        if b.len() > 0 {
            let len = choose|len: int| #[trigger]
                begins_with_symbol(bits, len, b[0]) && spells(bits.skip(len), b.drop_first());
            lemma_padding_has_no_code(bits, len);
        }
    } else {
        let len = choose|len: int| #[trigger]
            begins_with_symbol(bits, len, a[0]) && spells(bits.skip(len), a.drop_first());
        lemma_first_symbol(bits, len, b);
        lemma_spells_one_text(bits.skip(len), a.drop_first(), b.drop_first());
        assert(a =~= seq![a[0]] + a.drop_first());
        assert(b =~= seq![b[0]] + b.drop_first());
    }
}

fn count_of_len(len: u32) -> (n: u32)
    ensures
        n == code_count(len as int),
        n <= 32,
{
    match len {
        5 => 10,
        6 => 26,
        7 => 32,
        8 => 6,
        10 => 5,
        11 => 3,
        12 => 2,
        13 => 6,
        14 => 2,
        15 => 3,
        19 => 3,
        20 => 8,
        21 => 13,
        22 => 26,
        23 => 29,
        24 => 12,
        25 => 4,
        26 => 15,
        27 => 19,
        28 => 29,
        30 => 4,
        _ => 0,
    }
}

proof fn lemma_byte_bits(b: int)
    ensures
        ({
            let b1 = b / 2;
            let b2 = b1 / 2;
            let b3 = b2 / 2;
            let b4 = b3 / 2;
            let b5 = b4 / 2;
            let b6 = b5 / 2;
            let b7 = b6 / 2;
            low_bits(b, 8) == seq![
                b7 % 2 == 1,
                b6 % 2 == 1,
                b5 % 2 == 1,
                b4 % 2 == 1,
                b3 % 2 == 1,
                b2 % 2 == 1,
                b1 % 2 == 1,
                b % 2 == 1,
            ]
        }),
{
    reveal_with_fuel(low_bits, 9);
}

fn push_byte_bits(bits: &mut Vec<bool>, b: u8)
    ensures
        final(bits)@ == old(bits)@ + low_bits(b as int, 8),
{
    let b1: u8 = b / 2;
    let b2: u8 = b1 / 2;
    let b3: u8 = b2 / 2;
    let b4: u8 = b3 / 2;
    let b5: u8 = b4 / 2;
    let b6: u8 = b5 / 2;
    let b7: u8 = b6 / 2;
    bits.push(b7 % 2 == 1);
    bits.push(b6 % 2 == 1);
    bits.push(b5 % 2 == 1);
    bits.push(b4 % 2 == 1);
    bits.push(b3 % 2 == 1);
    bits.push(b2 % 2 == 1);
    bits.push(b1 % 2 == 1);
    bits.push(b % 2 == 1);
    proof {
        lemma_byte_bits(b as int);
    }
}

fn unpack_bits(raw: &[u8]) -> (bits: Vec<bool>)
    ensures
        bits@ == bits_of(raw@),
{
    let mut bits: Vec<bool> = Vec::new();
    let mut i: usize = 0;
    while i < raw.len()
        invariant
            i <= raw@.len(),
            bits@ == bits_of(raw@.take(i as int)),
        decreases raw@.len() - i,
    {
        push_byte_bits(&mut bits, raw[i]);
        assert(raw@.take(i + 1).drop_last() =~= raw@.take(i as int));
        i += 1;
    }
    assert(raw@.take(i as int) =~= raw@);
    bits
}

/// The limit of each length fits in that many bits, and the longest codes
/// leave no bit string over.
proof fn lemma_limits(len: int)
    requires
        1 <= len <= 30,
    ensures
        0 <= code_limit(len) <= 0x4000_0000,
        0 <= code_offset(len) <= 256,
        code_limit(30) == 0x4000_0000,
{
    reveal_with_fuel(code_limit, 31);
    reveal_with_fuel(code_offset, 31);
}

proof fn lemma_value_range(bits: Seq<bool>)
    requires
        bits.len() <= 30,
    ensures
        0 <= bits_value(bits) < 0x4000_0000,
        bits.len() < 30 ==> bits_value(bits) < 0x2000_0000,
{
    lemma_value_bound(bits);
    reveal_with_fuel(ones_value, 31);
}

proof fn lemma_value_bound(bits: Seq<bool>)
    ensures
        0 <= bits_value(bits) <= ones_value(bits.len() as int),
    decreases bits.len(),
{
    if bits.len() > 0 {
        lemma_value_bound(bits.drop_last());
    }
}

/// The texts that `whole` spells are `done` followed by what the bits from
/// `start` on spell.
#[verifier::opaque]
spec fn decoded_so_far(whole: Seq<bool>, start: int, done: Seq<u8>) -> bool {
    &&& forall|rest: Seq<u8>| #[trigger]
        spells(whole.skip(start), rest) ==> spells(whole, done + rest)
    &&& forall|text: Seq<u8>| #[trigger]
        spells(whole, text) ==> done.len() <= text.len() && text.take(done.len() as int) == done
            && spells(whole.skip(start), text.skip(done.len() as int))
}

proof fn lemma_decoded_nothing(whole: Seq<bool>)
    ensures
        decoded_so_far(whole, 0, Seq::empty()),
{
    reveal(decoded_so_far);
    assert(whole.skip(0) =~= whole);
    assert forall|rest: Seq<u8>| #[trigger] spells(whole.skip(0), rest) implies spells(
        whole,
        Seq::<u8>::empty() + rest,
    ) by {
        assert(Seq::<u8>::empty() + rest =~= rest);
    }
    assert forall|text: Seq<u8>| #[trigger] spells(whole, text) implies text.take(0)
        == Seq::<u8>::empty() && spells(whole.skip(0), text.skip(0)) by {
        assert(text.skip(0) =~= text);
    }
}

proof fn lemma_decoded_then(whole: Seq<bool>, start: int, done: Seq<u8>, rest: Seq<u8>)
    requires
        decoded_so_far(whole, start, done),
        spells(whole.skip(start), rest),
    ensures
        spells(whole, done + rest),
{
    reveal(decoded_so_far);
}

proof fn lemma_decoded_from(whole: Seq<bool>, start: int, done: Seq<u8>, text: Seq<u8>)
    requires
        decoded_so_far(whole, start, done),
        spells(whole, text),
    ensures
        done.len() <= text.len(),
        text.take(done.len() as int) == done,
        spells(whole.skip(start), text.skip(done.len() as int)),
{
    reveal(decoded_so_far);
}

proof fn lemma_spells_symbol(bits: Seq<bool>, len: int, symbol: u8, rest: Seq<u8>)
    requires
        begins_with_symbol(bits, len, symbol),
        spells(bits.skip(len), rest),
    ensures
        spells(bits, seq![symbol] + rest),
{
    let longer = seq![symbol] + rest;
    assert(longer.drop_first() =~= rest);
    assert(begins_with_symbol(bits, len, longer[0]));
}

proof fn lemma_decoded_symbol(
    whole: Seq<bool>,
    start: int,
    done: Seq<u8>,
    len: int,
    symbol: u8,
)
    requires
        0 <= start <= whole.len(),
        decoded_so_far(whole, start, done),
        begins_with_symbol(whole.skip(start), len, symbol),
    ensures
        decoded_so_far(whole, start + len, done.push(symbol)),
{
    let rem = whole.skip(start);
    let more = done.push(symbol);
    assert(rem.skip(len) =~= whole.skip(start + len));
    assert forall|rest: Seq<u8>| #[trigger] spells(whole.skip(start + len), rest) implies spells(
        whole,
        more + rest,
    ) by {
        lemma_spells_symbol(rem, len, symbol, rest);
        lemma_decoded_then(whole, start, done, seq![symbol] + rest);
        assert(done + (seq![symbol] + rest) =~= more + rest);
    }
    assert forall|text: Seq<u8>| #[trigger] spells(whole, text) implies more.len() <= text.len()
        && text.take(more.len() as int) == more && spells(
        whole.skip(start + len),
        text.skip(more.len() as int),
    ) by {
        let n = done.len() as int;
        lemma_decoded_from(whole, start, done, text);
        lemma_first_symbol(rem, len, text.skip(n));
        assert(text.skip(n).drop_first() =~= text.skip(n + 1));
        assert(text.take(n + 1) =~= text.take(n).push(text[n]));
    }
    assert(decoded_so_far(whole, start + len, more)) by {
        reveal(decoded_so_far);
    }
}

proof fn lemma_decoded_end_of_string(whole: Seq<bool>, start: int, done: Seq<u8>, len: int)
    requires
        0 <= start <= whole.len(),
        decoded_so_far(whole, start, done),
        0 <= len <= whole.skip(start).len(),
        code_rank(whole.skip(start).take(len)) == Some(EOS_RANK as int),
    ensures
        forall|text: Seq<u8>| !spells(whole, text),
{
    reveal(decoded_so_far);
    assert forall|text: Seq<u8>| !spells(whole, text) by {
        if spells(whole, text) {
            lemma_first_symbol(whole.skip(start), len, text.skip(done.len() as int));
        }
    }
}

proof fn lemma_decoded_all(whole: Seq<bool>, start: int, done: Seq<u8>)
    requires
        0 <= start <= whole.len(),
        decoded_so_far(whole, start, done),
        forall|k: int|
            0 <= k <= whole.len() - start ==> (#[trigger] code_rank(
                whole.skip(start).take(k),
            )) is None,
    ensures
        is_padding(whole.skip(start)) ==> spells(whole, done),
        !is_padding(whole.skip(start)) ==> forall|text: Seq<u8>| !spells(whole, text),
{
    reveal(decoded_so_far);
    let rem = whole.skip(start);
    if is_padding(rem) {
        assert(spells(rem, Seq::empty()));
        assert(done + Seq::<u8>::empty() =~= done);
    } else {
        assert forall|text: Seq<u8>| !spells(whole, text) by {
            if spells(whole, text) {
                let rest = text.skip(done.len() as int);
                assert(spells(rem, rest));
                let l = choose|l: int| #[trigger]
                    begins_with_symbol(rem, l, rest[0]) && spells(rem.skip(l), rest.drop_first());
                assert(code_rank(rem.take(l)) is None);
            }
        }
    }
}

/// The text that a Huffman-coded string stands for, if it stands for one.
pub open spec fn huffman_text(raw: Seq<u8>) -> Option<Seq<u8>> {
    if exists|text: Seq<u8>| spells(bits_of(raw), text) {
        Some(choose|text: Seq<u8>| spells(bits_of(raw), text))
    } else {
        None
    }
}

/// The input is not a Huffman-coded string.
#[derive(Clone, Copy, PartialEq, Eq, Debug, Structural)]
pub struct BadCode;

/// Decodes a Huffman-coded string.
///
/// The end-of-string code, padding of a byte or more, and padding with a zero
/// bit make the input spell nothing, and are errors.
pub fn decode(raw: &[u8]) -> (r: Result<Vec<u8>, BadCode>)
    ensures
        match r {
            Ok(text) => spells(bits_of(raw@), text@),
            Err(_) => forall|text: Seq<u8>| !spells(bits_of(raw@), text),
        },
        huffman_text(raw@) == match r {
            Ok(text) => Some(text@),
            Err(_) => None,
        },
{
    let bits = unpack_bits(raw);
    let mut out: Vec<u8> = Vec::new();
    let mut start: usize = 0;
    let mut i: usize = 0;
    let mut len: u32 = 0;
    let mut value: u32 = 0;
    let mut limit: u32 = 0;
    let mut offset: u32 = 0;
    let mut all_ones: bool = true;
    let ghost whole = bits@;
    proof {
        lemma_decoded_nothing(whole);
        assert(whole.skip(0).take(0) =~= Seq::<bool>::empty());
    }
    while i < bits.len()
        invariant
            bits@ == whole,
            whole == bits_of(raw@),
            start <= i <= whole.len(),
            len == i - start,
            len < 30,
            value == bits_value(whole.skip(start as int).take(len as int)),
            value >= limit,
            limit == code_limit(len as int),
            offset == code_offset(len + 1),
            all_ones == (forall|k: int| start <= k < i ==> whole[k]),
            forall|k: int|
                0 <= k <= len ==> (#[trigger] code_rank(whole.skip(start as int).take(k))) is None,
            decoded_so_far(whole, start as int, out@),
        decreases whole.len() - i,
    {
        let bit: bool = bits[i];
        let count = count_of_len(len + 1);
        let ghost rem = whole.skip(start as int);
        proof {
            assert(rem.take(len + 1).drop_last() =~= rem.take(len as int));
            lemma_value_range(rem.take(len as int));
            lemma_value_range(rem.take(len + 1));
            lemma_limits(len + 1);
            if len > 0 {
                lemma_limits(len as int);
            }
        }
        value = 2 * value + if bit {
            1
        } else {
            0
        };
        let first: u32 = 2 * limit;
        limit = first + count;
        len += 1;
        i += 1;
        if !bit {
            all_ones = false;
        }
        if value < limit {
            let rank: u32 = offset + (value - first);
            proof {
                assert(code_rank(rem.take(len as int)) == Some(rank as int));
                lemma_code_rank_range(rem.take(len as int));
            }
            if rank == EOS_RANK {
                proof {
                    lemma_decoded_end_of_string(whole, start as int, out@, len as int);
                }
                return Err(BadCode);
            }
            let symbol: u8 = symbol(rank);
            proof {
                lemma_decoded_symbol(whole, start as int, out@, len as int, symbol);
                assert(whole.skip(i as int).take(0) =~= Seq::<bool>::empty());
            }
            out.push(symbol);
            start = i;
            len = 0;
            value = 0;
            limit = 0;
            offset = 0;
            all_ones = true;
        } else {
            offset = offset + count;
        }
    }
    proof {
        lemma_decoded_all(whole, start as int, out@);
        let rem = whole.skip(start as int);
        assert(forall|k: int| 0 <= k < rem.len() ==> rem[k] == whole[start + k]);
        assert(forall|k: int| start <= k < i ==> whole[k] == rem[k - start]);
    }
    if len < 8 && all_ones {
        proof {
            lemma_spells_one_text(
                whole,
                out@,
                choose|text: Seq<u8>| spells(bits_of(raw@), text),
            );
        }
        Ok(out)
    } else {
        Err(BadCode)
    }
}

} // verus!
