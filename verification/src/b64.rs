//! Base64 with the standard alphabet and padding.

use base64::Engine;
use vstd::prelude::*;

verus! {

/// The character for a number below 64.
pub open spec fn base64_char(v: int) -> char {
    if v < 26 {
        (0x41 + v) as char
    } else if v < 52 {
        (0x61 + v - 26) as char
    } else if v < 62 {
        (0x30 + v - 52) as char
    } else if v == 62 {
        '+'
    } else {
        '/'
    }
}

/// Four characters for every three bytes; equals signs fill up the last four.
pub open spec fn base64_text(b: Seq<u8>) -> Seq<char>
    decreases b.len(),
{
    if b.len() == 0 {
        Seq::empty()
    } else if b.len() == 1 {
        seq![base64_char(b[0] as int / 4), base64_char(b[0] as int % 4 * 16), '=', '=']
    } else if b.len() == 2 {
        seq![
            base64_char(b[0] as int / 4),
            base64_char(b[0] as int % 4 * 16 + b[1] as int / 16),
            base64_char(b[1] as int % 16 * 4),
            '=',
        ]
    } else {
        seq![
            base64_char(b[0] as int / 4),
            base64_char(b[0] as int % 4 * 16 + b[1] as int / 16),
            base64_char(b[1] as int % 16 * 4 + b[2] as int / 64),
            base64_char(b[2] as int % 64),
        ] + base64_text(b.skip(3))
    }
}

/// The bytes that `s` encodes, if it is the encoding of any.
pub open spec fn base64_bytes(s: Seq<char>) -> Option<Seq<u8>> {
    if exists|b: Seq<u8>| base64_text(b) == s {
        Some(choose|b: Seq<u8>| base64_text(b) == s)
    } else {
        None
    }
}

/// `Engine::encode` of `base64::engine::general_purpose::STANDARD`.
#[verifier::external_body]
pub(crate) fn encode(bytes: &[u8]) -> (s: String)
    ensures
        s@ == base64_text(bytes@),
{
    base64::engine::general_purpose::STANDARD.encode(bytes)
}

/// `Engine::decode` of `base64::engine::general_purpose::STANDARD`: its padding
/// must be canonical and no bit may trail, so that it accepts exactly what
/// `encode` gives.
#[verifier::external_body]
fn decode_standard(s: &str) -> (r: Option<Vec<u8>>)
    ensures
        match r {
            Some(b) => base64_text(b@) == s@,
            None => forall|b: Seq<u8>| base64_text(b) != s@,
        },
{
    base64::engine::general_purpose::STANDARD.decode(s).ok()
}

/// Decodes `s`.
pub fn decode(s: &str) -> (r: Option<Vec<u8>>)
    ensures
        match base64_bytes(s@) {
            Some(b) => r matches Some(x) && x@ == b,
            None => r is None,
        },
{
    let r = decode_standard(s);
    proof {
        if r is Some {
            lemma_base64_injective(r->Some_0@, choose|b: Seq<u8>| base64_text(b) == s@);
        }
    }
    r
}

proof fn lemma_char_injective(a: int, b: int)
    requires
        0 <= a < 64,
        0 <= b < 64,
        base64_char(a) == base64_char(b),
    ensures
        a == b,
{
}

proof fn lemma_char_is_no_padding(a: int)
    requires
        0 <= a < 64,
    ensures
        base64_char(a) != '=',
{
}

proof fn lemma_text_len(b: Seq<u8>)
    ensures
        b.len() == 0 <==> base64_text(b).len() == 0,
        b.len() > 0 ==> base64_text(b).len() >= 4,
    decreases b.len(),
{
    if b.len() >= 3 {
        lemma_text_len(b.skip(3));
    }
}

proof fn lemma_text_head(b: Seq<u8>)
    requires
        b.len() > 0,
    ensures
        base64_text(b)[0] == base64_char(b[0] as int / 4),
        b.len() == 1 ==> base64_text(b)[1] == base64_char(b[0] as int % 4 * 16),
        b.len() >= 2 ==> base64_text(b)[1] == base64_char(
            b[0] as int % 4 * 16 + b[1] as int / 16,
        ),
        b.len() == 1 ==> base64_text(b)[2] == '=',
        b.len() == 2 ==> base64_text(b)[2] == base64_char(b[1] as int % 16 * 4),
        b.len() >= 3 ==> base64_text(b)[2] == base64_char(
            b[1] as int % 16 * 4 + b[2] as int / 64,
        ),
        b.len() <= 2 ==> base64_text(b)[3] == '=',
        b.len() >= 3 ==> base64_text(b)[3] == base64_char(b[2] as int % 64),
        b.len() <= 2 ==> base64_text(b).len() == 4,
        b.len() >= 3 ==> base64_text(b).skip(4) == base64_text(b.skip(3)),
{
    if b.len() >= 3 {
        assert(base64_text(b).skip(4) =~= base64_text(b.skip(3)));
    }
}

/// Different bytes have different encodings.
pub proof fn lemma_base64_injective(a: Seq<u8>, b: Seq<u8>)
    requires
        base64_text(a) == base64_text(b),
    ensures
        a == b,
    decreases a.len(),
{
    let s = base64_text(a);
    let t = base64_text(b);
    lemma_text_len(a);
    lemma_text_len(b);
    if a.len() > 0 {
        lemma_text_head(a);
        lemma_text_head(b);
        lemma_char_injective(a[0] as int / 4, b[0] as int / 4);
        if a.len() == 1 {
            if b.len() >= 2 {
                if b.len() == 2 {
                    lemma_char_is_no_padding(b[1] as int % 16 * 4);
                } else {
                    lemma_char_is_no_padding(b[1] as int % 16 * 4 + b[2] as int / 64);
                }
            }
            lemma_char_injective(a[0] as int % 4 * 16, b[0] as int % 4 * 16);
            assert(a =~= b);
        } else if a.len() == 2 {
            if b.len() == 1 {
                lemma_char_is_no_padding(a[1] as int % 16 * 4);
            } else if b.len() >= 3 {
                lemma_char_is_no_padding(b[2] as int % 64);
            }
            lemma_char_injective(
                a[0] as int % 4 * 16 + a[1] as int / 16,
                b[0] as int % 4 * 16 + b[1] as int / 16,
            );
            lemma_char_injective(a[1] as int % 16 * 4, b[1] as int % 16 * 4);
            assert(a =~= b);
        } else {
            lemma_char_is_no_padding(a[2] as int % 64);
            assert(b.len() >= 3);
            lemma_char_injective(
                a[0] as int % 4 * 16 + a[1] as int / 16,
                b[0] as int % 4 * 16 + b[1] as int / 16,
            );
            lemma_char_injective(
                a[1] as int % 16 * 4 + a[2] as int / 64,
                b[1] as int % 16 * 4 + b[2] as int / 64,
            );
            lemma_char_injective(a[2] as int % 64, b[2] as int % 64);
            lemma_base64_injective(a.skip(3), b.skip(3));
            assert(a =~= a.take(3) + a.skip(3));
            assert(b =~= b.take(3) + b.skip(3));
            assert(a.take(3) =~= b.take(3));
        }
    }
}

/// Decoding what was encoded gives the bytes back.
pub proof fn lemma_base64_read_back(b: Seq<u8>)
    ensures
        base64_bytes(base64_text(b)) == Some(b),
{
    let s = base64_text(b);
    assert(base64_text(b) == s);
    lemma_base64_injective(b, choose|x: Seq<u8>| base64_text(x) == s);
}

/// A character of an encoding.
pub open spec fn is_base64_char(c: char) -> bool {
    'A' <= c <= 'Z' || 'a' <= c <= 'z' || '0' <= c <= '9' || c == '+' || c == '/' || c == '='
}

/// An encoding holds nothing but letters, digits, `+`, `/` and `=`.
pub proof fn lemma_base64_chars(b: Seq<u8>)
    ensures
        forall|i: int| 0 <= i < base64_text(b).len() ==> is_base64_char(#[trigger] base64_text(b)[i]),
        b.len() > 0 ==> base64_text(b).len() > 0,
    decreases b.len(),
{
    if b.len() > 0 {
        lemma_text_head(b);
        lemma_text_len(b);
        let s = base64_text(b);
        if b.len() >= 3 {
            lemma_base64_chars(b.skip(3));
        }
        assert forall|i: int| 0 <= i < s.len() implies is_base64_char(#[trigger] s[i]) by {
            if i >= 4 {
                assert(s[i] == s.skip(4)[i - 4]);
            }
        }
    }
}

} // verus!
