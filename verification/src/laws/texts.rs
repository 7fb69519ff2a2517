//! Text: white space, lines, words and numbers.

use crate::text;
use vstd::prelude::*;

verus! {

/// The characters that are white space.
#[verifier::opaque]
pub open spec fn white_space() -> Seq<char> {
    seq![
        '\u{9}',
        '\u{a}',
        '\u{b}',
        '\u{c}',
        '\u{d}',
        ' ',
        '\u{85}',
        '\u{a0}',
        '\u{1680}',
        '\u{2000}',
        '\u{2001}',
        '\u{2002}',
        '\u{2003}',
        '\u{2004}',
        '\u{2005}',
        '\u{2006}',
        '\u{2007}',
        '\u{2008}',
        '\u{2009}',
        '\u{200a}',
        '\u{2028}',
        '\u{2029}',
        '\u{202f}',
        '\u{205f}',
        '\u{3000}',
    ]
}

/// Some number of white-space characters and nothing else.
pub open spec fn is_blank(s: Seq<char>) -> bool {
    forall|i: int| 0 <= i < s.len() ==> white_space().contains(#[trigger] s[i])
}

/// White space is what Unicode calls so, and nothing else.
pub proof fn lemma_white_space(c: char)
    ensures
        text::is_space(c) <==> white_space().contains(c),
{
    reveal(white_space);
    let w = white_space();
    let u = c as u32;
    if text::is_space(c) {
        let i: int = if u <= 0x0d {
            u - 9
        } else if u == 0x20 {
            5
        } else if u == 0x85 {
            6
        } else if u == 0xa0 {
            7
        } else if u == 0x1680 {
            8
        } else if u <= 0x200a {
            u - 0x2000 + 9
        } else if u == 0x2028 {
            20
        } else if u == 0x2029 {
            21
        } else if u == 0x202f {
            22
        } else if u == 0x205f {
            23
        } else {
            24
        };
        assert(w.len() == 25);
        assert(w[i] == c);
    }
}

/// Trimming takes the white space off both ends of a text, and nothing else.
pub proof fn lemma_trimmed(before: Seq<char>, s: Seq<char>, after: Seq<char>)
    requires
        is_blank(before),
        is_blank(after),
        s.len() > 0 ==> !white_space().contains(s[0]) && !white_space().contains(s.last()),
    ensures
        text::trimmed(before + s + after) == s,
{
    if s.len() > 0 {
        lemma_white_space(s[0]);
        lemma_white_space(s.last());
    }
    lemma_front_off(before, s + after);
    assert(before + (s + after) =~= before + s + after);
    if s.len() == 0 {
        assert(s + after =~= after);
        lemma_front_off(after, s);
        assert(after + s =~= after);
        assert(text::trim_start(s) =~= s);
    } else {
        assert((s + after)[0] == s[0]);
        lemma_back_off(s, after);
    }
}

proof fn lemma_front_off(before: Seq<char>, rest: Seq<char>)
    requires
        is_blank(before),
    ensures
        text::trim_start(before + rest) == text::trim_start(rest),
    decreases before.len(),
{
    if before.len() > 0 {
        lemma_white_space(before[0]);
        assert(white_space().contains(before[0]));
        let b = before.drop_first();
        assert forall|i: int| 0 <= i < b.len() implies white_space().contains(#[trigger] b[i]) by {
            assert(b[i] == before[i + 1]);
        }
        lemma_front_off(b, rest);
        assert((before + rest).drop_first() =~= b + rest);
        assert((before + rest)[0] == before[0]);
    } else {
        assert(before + rest =~= rest);
    }
}

proof fn lemma_back_off(s: Seq<char>, after: Seq<char>)
    requires
        is_blank(after),
        s.len() > 0,
        !text::is_space(s.last()),
    ensures
        text::trim_end(s + after) == s,
    decreases after.len(),
{
    if after.len() > 0 {
        lemma_white_space(after.last());
        assert(white_space().contains(after[after.len() - 1]));
        let a = after.drop_last();
        assert forall|i: int| 0 <= i < a.len() implies white_space().contains(#[trigger] a[i]) by {
            assert(a[i] == after[i]);
        }
        lemma_back_off(s, a);
        assert((s + after).drop_last() =~= s + a);
    } else {
        assert(s + after =~= s);
    }
}

/// A line ends at a line feed, with or without a carriage return before it.
pub proof fn lemma_line_endings(line: Seq<char>, rest: Seq<char>)
    requires
        !line.contains('\n'),
    ensures
        text::lines_of(line + seq!['\r', '\n'] + rest) == seq![line] + text::lines_of(rest),
        (line.len() == 0 || line.last() != '\r') ==> text::lines_of(line + seq!['\n'] + rest)
            == seq![line] + text::lines_of(rest),
        line.len() > 0 ==> text::lines_of(line) == seq![line],
{
    if line.len() == 0 || line.last() != '\r' {
        text::lemma_lines_cons(line, rest);
    }
    let s = line + seq!['\r', '\n'] + rest;
    let n = line.len() as int;
    assert forall|k: int| 0 <= k < n + 1 implies s[k] != '\n' by {
        if k < n {
            assert(line.contains(line[k]));
        }
    }
    assert(s[n + 1] == '\n');
    text::lemma_first_at_is(s, '\n', n + 1);
    assert(s.take(n + 1).drop_last() =~= line);
    assert(s.take(n + 1).last() == '\r');
    assert(s.skip(n + 2) =~= rest);
    text::lemma_first_at(line, '\n');
}

/// Words are what stands between white space.
pub proof fn lemma_words(before: Seq<char>, word: Seq<char>, rest: Seq<char>)
    requires
        is_blank(before),
        word.len() > 0,
        forall|i: int| 0 <= i < word.len() ==> !white_space().contains(#[trigger] word[i]),
        rest.len() > 0 ==> white_space().contains(rest[0]),
    ensures
        text::words(before + word + rest) == seq![word] + text::words(rest),
        is_blank(rest) ==> text::words(rest) == Seq::<Seq<char>>::empty(),
{
    lemma_words_front(before, word + rest);
    assert(before + (word + rest) =~= before + word + rest);
    let s = word + rest;
    assert forall|i: int| 0 <= i < word.len() implies !text::is_space(#[trigger] word[i]) by {
        lemma_white_space(word[i]);
    }
    if rest.len() > 0 {
        lemma_white_space(rest[0]);
    }
    lemma_word_size(word, rest);
    assert(s[0] == word[0]);
    assert(s.take(word.len() as int) =~= word);
    assert(s.skip(word.len() as int) =~= rest);
    if is_blank(rest) {
        lemma_words_front(rest, Seq::empty());
        assert(rest + Seq::<char>::empty() =~= rest);
    }
}

proof fn lemma_words_front(before: Seq<char>, rest: Seq<char>)
    requires
        is_blank(before),
    ensures
        text::words(before + rest) == text::words(rest),
    decreases before.len(),
{
    if before.len() > 0 {
        lemma_white_space(before[0]);
        assert(white_space().contains(before[0]));
        let b = before.drop_first();
        assert forall|i: int| 0 <= i < b.len() implies white_space().contains(#[trigger] b[i]) by {
            assert(b[i] == before[i + 1]);
        }
        lemma_words_front(b, rest);
        assert((before + rest).drop_first() =~= b + rest);
        assert((before + rest)[0] == before[0]);
    } else {
        assert(before + rest =~= rest);
    }
}

proof fn lemma_word_size(word: Seq<char>, rest: Seq<char>)
    requires
        forall|i: int| 0 <= i < word.len() ==> !text::is_space(#[trigger] word[i]),
        rest.len() > 0 ==> text::is_space(rest[0]),
    ensures
        text::word_len(word + rest) == word.len(),
    decreases word.len(),
{
    if word.len() > 0 {
        let w = word.drop_first();
        assert(!text::is_space(word[0]));
        assert forall|i: int| 0 <= i < w.len() implies !text::is_space(#[trigger] w[i]) by {
            assert(w[i] == word[i + 1]);
        }
        lemma_word_size(w, rest);
        assert((word + rest).drop_first() =~= w + rest);
        assert((word + rest)[0] == word[0]);
    } else {
        assert(word + rest =~= rest);
    }
}

/// Two words with any white space between and around them are told with one space
/// between them, and no more than so many characters are told.
pub proof fn lemma_summary(
    before: Seq<char>,
    first: Seq<char>,
    between: Seq<char>,
    second: Seq<char>,
    after: Seq<char>,
    n: nat,
)
    requires
        is_blank(before),
        is_blank(between),
        is_blank(after),
        between.len() > 0,
        first.len() > 0,
        second.len() > 0,
        forall|i: int| 0 <= i < first.len() ==> !white_space().contains(#[trigger] first[i]),
        forall|i: int| 0 <= i < second.len() ==> !white_space().contains(#[trigger] second[i]),
    ensures
        ({
            let told = text::summary(before + first + between + second + after, n as int);
            let flat = first + seq![' '] + second;
            &&& flat.len() <= n ==> told == flat
            &&& flat.len() > n ==> told == flat.take(n as int)
        }),
{
    let s = before + first + between + second + after;
    assert(text::words(s) == seq![first, second]) by {
        lemma_two_words(before, first, between, second, after);
    }
    lemma_joined_two(first, second);
}

proof fn lemma_joined_two(first: Seq<char>, second: Seq<char>)
    ensures
        text::joined(seq![first, second]) == first + seq![' '] + second,
{
    let w = seq![first, second];
    assert(w.drop_last() =~= seq![first]);
    assert(text::joined(seq![first]) == first);
}

proof fn lemma_two_words(
    before: Seq<char>,
    first: Seq<char>,
    between: Seq<char>,
    second: Seq<char>,
    after: Seq<char>,
)
    requires
        is_blank(before),
        is_blank(between),
        is_blank(after),
        between.len() > 0,
        first.len() > 0,
        second.len() > 0,
        forall|i: int| 0 <= i < first.len() ==> !white_space().contains(#[trigger] first[i]),
        forall|i: int| 0 <= i < second.len() ==> !white_space().contains(#[trigger] second[i]),
    ensures
        text::words(before + first + between + second + after) == seq![first, second],
{
    let rest = between + second + after;
    assert(white_space().contains(between[0]));
    assert(rest[0] == between[0]);
    if after.len() > 0 {
        assert(white_space().contains(after[0]));
    }
    lemma_words(before, first, rest);
    lemma_words(between, second, after);
    assert(before + first + between + second + after =~= before + first + rest);
    assert(seq![first] + (seq![second] + Seq::<Seq<char>>::empty()) =~= seq![first, second]);
}

/// A number is read from its digits, with or without a plus sign and leading zeros, up
/// to what it may be at most.
pub proof fn lemma_number(zeros: nat, n: nat, max: nat)
    ensures
        ({
            let digits = Seq::new(zeros, |i: int| '0') + text::decimal(n);
            &&& n <= max ==> text::parsed_up_to(digits, max) == Some(n) && text::parsed_up_to(
                seq!['+'] + digits,
                max,
            ) == Some(n)
            &&& n > max ==> text::parsed_up_to(digits, max) is None && text::parsed_up_to(
                seq!['+'] + digits,
                max,
            ) is None
        }),
{
    let z = Seq::new(zeros, |i: int| '0');
    let d = text::decimal(n);
    let digits = z + d;
    text::lemma_decimal(n);
    lemma_zeros(zeros, d);
    assert forall|i: int| 0 <= i < digits.len() implies text::is_digit(#[trigger] digits[i]) by {
        if i >= zeros {
            assert(digits[i] == d[i - zeros]);
            assert(text::is_digit(d[i - zeros]));
        }
    }
    assert(text::is_digit(digits[0]));
    assert((seq!['+'] + digits).skip(1) =~= digits);
}

proof fn lemma_zeros(zeros: nat, d: Seq<char>)
    ensures
        text::digits_value(Seq::new(zeros, |i: int| '0') + d) == text::digits_value(d),
    decreases d.len(), zeros,
{
    let z = Seq::new(zeros, |i: int| '0');
    if d.len() > 0 {
        assert((z + d).drop_last() =~= z + d.drop_last());
        lemma_zeros(zeros, d.drop_last());
    } else if zeros > 0 {
        let y = Seq::new((zeros - 1) as nat, |i: int| '0');
        assert((z + d).drop_last() =~= y + d);
        assert((z + d).last() == '0');
        lemma_zeros((zeros - 1) as nat, d);
    } else {
        assert(z + d =~= d);
    }
}

/// A text with a character that is no digit, but for a plus sign ahead, is no number,
/// and neither is one without digits.
pub proof fn lemma_no_number(s: Seq<char>, i: int, max: nat)
    requires
        s.len() == 0 || s == seq!['+'] || (0 < i < s.len() && !('0' <= s[i] <= '9')) || !('0'
            <= s[0] <= '9' || s[0] == '+'),
    ensures
        text::parsed_up_to(s, max) is None,
{
    if s.len() > 0 {
        let t = s.skip(1);
        if 0 < i < s.len() && !('0' <= s[i] <= '9') {
            assert(t[i - 1] == s[i]);
            assert(!text::is_digit(t[i - 1]));
            assert(!text::is_digit(s[i]));
        }
        assert(text::all_digits(s) ==> text::is_digit(s[0]));
    }
}

} // verus!
