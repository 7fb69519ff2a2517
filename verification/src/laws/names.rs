//! DNS messages, over UDP and over HTTPS, and the caches of their answers.

use crate::addr::IpAddr;
use crate::dns;
use crate::dns::{CacheEntry, DnsError};
use crate::http;
use crate::laws::proxy;
use crate::laws::socks::two_bytes;
use crate::outbound::masque::doh;
use crate::outbound::masque::doh::{DohEntry, DohFault, DohReadView};
use crate::text;
use crate::wire;
use vstd::prelude::*;
use vstd::utf8::*;

verus! {

/// Four bytes, the high one first.
pub open spec fn four_bytes(n: u32) -> Seq<u8> {
    seq![
        (n / 0x100_0000) as u8,
        (n / 0x1_0000 % 256) as u8,
        (n / 0x100 % 256) as u8,
        (n % 256) as u8,
    ]
}

/// A name on the wire: each label behind its size, and a zero byte.
pub open spec fn spelled(labels: Seq<Seq<u8>>) -> Seq<u8>
    decreases labels.len(),
{
    if labels.len() == 0 {
        seq![0u8]
    } else {
        seq![labels[0].len() as u8] + labels[0] + spelled(labels.drop_first())
    }
}

/// Labels that a name can have: between one and 63 bytes each.
pub open spec fn are_labels(labels: Seq<Seq<u8>>) -> bool {
    forall|i: int| 0 <= i < labels.len() ==> 1 <= (#[trigger] labels[i]).len() <= 63
}

/// The labels of a name without the zero byte behind them.
pub open spec fn open_labels(labels: Seq<Seq<u8>>) -> Seq<u8>
    decreases labels.len(),
{
    if labels.len() == 0 {
        Seq::empty()
    } else {
        seq![labels[0].len() as u8] + labels[0] + open_labels(labels.drop_first())
    }
}

/// A name in a message: spelled out, or some labels, perhaps none, and a pointer to the
/// rest of it.
pub enum NameForm {
    Labels(Seq<Seq<u8>>),
    Pointer(Seq<Seq<u8>>, u8, u8),
}

/// A name that can be written.
pub open spec fn is_name(n: NameForm) -> bool {
    match n {
        NameForm::Labels(ls) => are_labels(ls),
        NameForm::Pointer(ls, high, _) => are_labels(ls) && high >= 192,
    }
}

/// The bytes of a name.
pub open spec fn name_bytes(n: NameForm) -> Seq<u8> {
    match n {
        NameForm::Labels(ls) => spelled(ls),
        NameForm::Pointer(ls, high, low) => open_labels(ls) + seq![high, low],
    }
}

/// A record of an answer.
pub struct Answer {
    pub name: NameForm,
    pub rtype: u16,
    pub class: u16,
    pub ttl: u32,
    pub data: Seq<u8>,
}

/// A record that can be written.
pub open spec fn is_answer(a: Answer) -> bool {
    is_name(a.name) && a.data.len() < 65536
}

/// Records that can be written, no more than a message can have.
pub open spec fn are_answers(answers: Seq<Answer>) -> bool {
    answers.len() < 65536 && forall|i: int| 0 <= i < answers.len() ==> is_answer(#[trigger] answers[i])
}

/// The bytes of a record: name, type, class, time to live, and the data behind its
/// size.
pub open spec fn answer_bytes(a: Answer) -> Seq<u8> {
    name_bytes(a.name) + two_bytes(a.rtype) + two_bytes(a.class) + four_bytes(a.ttl) + two_bytes(
        a.data.len() as u16,
    ) + a.data
}

/// Records one after the other.
pub open spec fn answers_bytes(answers: Seq<Answer>) -> Seq<u8>
    decreases answers.len(),
{
    if answers.len() == 0 {
        Seq::empty()
    } else {
        answer_bytes(answers[0]) + answers_bytes(answers.drop_first())
    }
}

/// A question: the name, the type and the class.
pub struct Question {
    pub name: NameForm,
    pub qtype: u16,
    pub class: u16,
}

/// Questions that can be written, no more than a message can have.
pub open spec fn are_questions(questions: Seq<Question>) -> bool {
    questions.len() < 65536 && forall|i: int|
        0 <= i < questions.len() ==> is_name((#[trigger] questions[i]).name)
}

/// Questions one after the other.
pub open spec fn questions_bytes(questions: Seq<Question>) -> Seq<u8>
    decreases questions.len(),
{
    if questions.len() == 0 {
        Seq::empty()
    } else {
        name_bytes(questions[0].name) + two_bytes(questions[0].qtype) + two_bytes(
            questions[0].class,
        ) + questions_bytes(questions.drop_first())
    }
}

/// A message: identifier, flags, the counts, the questions, the answers.
pub open spec fn message(
    id: u16,
    flags: u16,
    more: u32,
    questions: Seq<Question>,
    answers: Seq<Answer>,
) -> Seq<u8> {
    two_bytes(id) + two_bytes(flags) + two_bytes(questions.len() as u16) + two_bytes(
        answers.len() as u16,
    ) + four_bytes(more) + questions_bytes(questions) + answers_bytes(answers)
}

/// A record with an address: type 1 with four bytes, or type 28 with sixteen.
pub open spec fn has_address(a: Answer) -> bool {
    a.rtype == 1 && a.data.len() == 4 || a.rtype == 28 && a.data.len() == 16
}

proof fn lemma_spelled_end(before: Seq<u8>, ls: Seq<Seq<u8>>, after: Seq<u8>)
    requires
        are_labels(ls),
    ensures
        dns::name_end(before + spelled(ls) + after, before.len() as int) == Ok::<int, DnsError>(
            (before.len() + spelled(ls).len()) as int,
        ),
    decreases ls.len(),
{
    let buf = before + spelled(ls) + after;
    let pos = before.len() as int;
    if ls.len() > 0 {
        let first = seq![ls[0].len() as u8] + ls[0];
        let rest = ls.drop_first();
        assert forall|i: int| 0 <= i < rest.len() implies 1 <= (#[trigger] rest[i]).len() <= 63 by {
            assert(rest[i] == ls[i + 1]);
        }
        lemma_spelled_end(before + first, rest, after);
        assert(buf =~= (before + first) + spelled(rest) + after);
        assert(1 <= ls[0].len() <= 63);
        assert(buf[pos] == ls[0].len());
        assert(dns::name_end(buf, pos) == dns::name_end(buf, pos + 1 + buf[pos]));
    } else {
        assert(buf[pos] == 0);
    }
}

proof fn lemma_pointer_end(before: Seq<u8>, ls: Seq<Seq<u8>>, high: u8, low: u8, after: Seq<u8>)
    requires
        are_labels(ls),
        high >= 192,
    ensures
        dns::name_end(before + (open_labels(ls) + seq![high, low]) + after, before.len() as int)
            == Ok::<int, DnsError>((before.len() + open_labels(ls).len() + 2) as int),
    decreases ls.len(),
{
    let buf = before + (open_labels(ls) + seq![high, low]) + after;
    let pos = before.len() as int;
    if ls.len() > 0 {
        let first = seq![ls[0].len() as u8] + ls[0];
        let rest = ls.drop_first();
        assert forall|i: int| 0 <= i < rest.len() implies 1 <= (#[trigger] rest[i]).len() <= 63 by {
            assert(rest[i] == ls[i + 1]);
        }
        lemma_pointer_end(before + first, rest, high, low, after);
        assert(buf =~= (before + first) + (open_labels(rest) + seq![high, low]) + after);
        assert(1 <= ls[0].len() <= 63);
        assert(buf[pos] == ls[0].len());
        assert(dns::name_end(buf, pos) == dns::name_end(buf, pos + 1 + buf[pos]));
    } else {
        assert(buf[pos] == high);
    }
}

proof fn lemma_name_form_end(before: Seq<u8>, n: NameForm, after: Seq<u8>)
    requires
        is_name(n),
    ensures
        dns::name_end(before + name_bytes(n) + after, before.len() as int) == Ok::<int, DnsError>(
            (before.len() + name_bytes(n).len()) as int,
        ),
{
    match n {
        NameForm::Labels(ls) => lemma_spelled_end(before, ls, after),
        NameForm::Pointer(ls, high, low) => lemma_pointer_end(before, ls, high, low, after),
    }
}

proof fn lemma_answer_at(before: Seq<u8>, a: Answer, after: Seq<u8>)
    requires
        is_answer(a),
    ensures
        dns::record_at(before + answer_bytes(a) + after, before.len() as int) == Ok::<
            (dns::Record, int),
            DnsError,
        >(
            (
                dns::Record { rtype: a.rtype as nat, ttl: a.ttl as nat, data: a.data },
                (before.len() + answer_bytes(a).len()) as int,
            ),
        ),
{
    let buf = before + answer_bytes(a) + after;
    let fixed = two_bytes(a.rtype) + two_bytes(a.class) + four_bytes(a.ttl) + two_bytes(
        a.data.len() as u16,
    );
    let tail = fixed + a.data + after;
    assert(buf =~= before + name_bytes(a.name) + tail);
    lemma_name_form_end(before, a.name, tail);
    let p = (before.len() + name_bytes(a.name).len()) as int;
    assert forall|k: int| 0 <= k < 10 implies buf[p + k] == fixed[k] by {}
    let t = buf.subrange(p, p + 2);
    let l = buf.subrange(p + 4, p + 8);
    let n = buf.subrange(p + 8, p + 10);
    assert(t[0] == fixed[0] && t[1] == fixed[1]);
    assert(l[0] == fixed[4] && l[1] == fixed[5] && l[2] == fixed[6] && l[3] == fixed[7]);
    assert(n[0] == fixed[8] && n[1] == fixed[9]);
    wire::lemma_be_value_2(t);
    wire::lemma_be_value_4(l);
    wire::lemma_be_value_2(n);
    assert(a.rtype == a.rtype / 256 * 256 + a.rtype % 256);
    let ttl = a.ttl;
    assert(ttl == ttl / 0x100_0000 * 0x100_0000 + ttl / 0x1_0000 % 256 * 0x1_0000 + ttl / 0x100
        % 256 * 0x100 + ttl % 256) by (bit_vector);
    assert(ttl / 0x100_0000 < 256 && ttl / 0x1_0000 % 256 < 256 && ttl / 0x100 % 256 < 256) by (
    bit_vector);
    assert(wire::be_value(l) == ttl);
    let size = a.data.len() as u16;
    assert(size == a.data.len());
    assert(wire::be_value(n) == size);
    assert(buf.subrange(p + 10, p + 10 + a.data.len()) =~= a.data);
}

proof fn lemma_answers_at(before: Seq<u8>, answers: Seq<Answer>, after: Seq<u8>)
    requires
        forall|i: int| 0 <= i < answers.len() ==> is_answer(#[trigger] answers[i]),
    ensures
        dns::records_at(
            before + answers_bytes(answers) + after,
            before.len() as int,
            answers.len(),
        ) == Ok::<Seq<dns::Record>, DnsError>(records_of(answers)),
    decreases answers.len(),
{
    let buf = before + answers_bytes(answers) + after;
    if answers.len() > 0 {
        let rest = answers.drop_first();
        let first = answer_bytes(answers[0]);
        assert forall|i: int| 0 <= i < rest.len() implies is_answer(#[trigger] rest[i]) by {
            assert(rest[i] == answers[i + 1]);
        }
        assert(is_answer(answers[0]));
        lemma_answer_at(before, answers[0], answers_bytes(rest) + after);
        lemma_answers_at(before + first, rest, after);
        assert(buf =~= before + first + (answers_bytes(rest) + after));
        assert(buf =~= (before + first) + answers_bytes(rest) + after);
        assert(records_of(answers) =~= seq![
            dns::Record {
                rtype: answers[0].rtype as nat,
                ttl: answers[0].ttl as nat,
                data: answers[0].data,
            },
        ] + records_of(rest));
    } else {
        assert(records_of(answers) =~= Seq::empty());
    }
}

spec fn records_of(answers: Seq<Answer>) -> Seq<dns::Record> {
    Seq::new(
        answers.len(),
        |i: int|
            dns::Record {
                rtype: answers[i].rtype as nat,
                ttl: answers[i].ttl as nat,
                data: answers[i].data,
            },
    )
}

proof fn lemma_questions_end(before: Seq<u8>, questions: Seq<Question>, after: Seq<u8>)
    requires
        forall|i: int| 0 <= i < questions.len() ==> is_name((#[trigger] questions[i]).name),
    ensures
        dns::questions_end(
            before + questions_bytes(questions) + after,
            before.len() as int,
            questions.len(),
        ) == Ok::<int, DnsError>((before.len() + questions_bytes(questions).len()) as int),
    decreases questions.len(),
{
    let buf = before + questions_bytes(questions) + after;
    if questions.len() > 0 {
        let q = questions[0];
        let rest = questions.drop_first();
        let fixed = two_bytes(q.qtype) + two_bytes(q.class);
        let first = name_bytes(q.name) + fixed;
        assert(is_name(questions[0].name));
        assert forall|i: int| 0 <= i < rest.len() implies is_name((#[trigger] rest[i]).name) by {
            assert(rest[i] == questions[i + 1]);
        }
        lemma_name_form_end(before, q.name, fixed + questions_bytes(rest) + after);
        assert(buf =~= before + name_bytes(q.name) + (fixed + questions_bytes(rest) + after));
        lemma_questions_end(before + first, rest, after);
        assert(buf =~= (before + first) + questions_bytes(rest) + after);
    }
}

proof fn lemma_message_parts(
    id: u16,
    flags: u16,
    more: u32,
    questions: Seq<Question>,
    answers: Seq<Answer>,
    after: Seq<u8>,
) -> (start: int)
    requires
        are_questions(questions),
        are_answers(answers),
    ensures
        ({
            let buf = message(id, flags, more, questions, answers) + after;
            &&& buf.len() >= 12
            &&& wire::be_value(buf.subrange(0, 2)) == id
            &&& wire::be_value(buf.subrange(4, 6)) == questions.len()
            &&& wire::be_value(buf.subrange(6, 8)) == answers.len()
            &&& dns::questions_end(buf, 12, questions.len()) == Ok::<int, DnsError>(start)
            &&& 0 <= start
            &&& start + answers_bytes(answers).len() + after.len() == buf.len()
            &&& buf == buf.take(start) + answers_bytes(answers) + after
        }),
{
    let head = two_bytes(id) + two_bytes(flags) + two_bytes(questions.len() as u16) + two_bytes(
        answers.len() as u16,
    ) + four_bytes(more);
    let asked = questions_bytes(questions);
    let records = answers_bytes(answers);
    let buf = message(id, flags, more, questions, answers) + after;
    assert(buf =~= head + asked + (records + after));
    lemma_questions_end(head, questions, records + after);
    let a = buf.subrange(0, 2);
    let b = buf.subrange(4, 6);
    let c = buf.subrange(6, 8);
    assert(a[0] == head[0] && a[1] == head[1] && b[0] == head[4] && b[1] == head[5] && c[0]
        == head[6] && c[1] == head[7]);
    wire::lemma_be_value_2(a);
    wire::lemma_be_value_2(b);
    wire::lemma_be_value_2(c);
    let start = (head.len() + asked.len()) as int;
    assert(buf.take(start) =~= head + asked);
    assert(buf =~= buf.take(start) + records + after);
    start
}

/// The answer over HTTPS is the address and the time to live of the first record that
/// has an address, whatever records of other types, such as CNAMEs, stand before it and
/// whatever follows; where no record has one, there is no address.
pub proof fn lemma_first_address(
    id: u16,
    flags: u16,
    more: u32,
    questions: Seq<Question>,
    answers: Seq<Answer>,
    after: Seq<u8>,
    k: int,
)
    requires
        are_questions(questions),
        are_answers(answers),
    ensures
        ({
            let got = doh::answer_of(message(id, flags, more, questions, answers) + after);
            &&& 0 <= k < answers.len() && has_address(answers[k]) && (forall|i: int|
                0 <= i < k ==> !has_address(#[trigger] answers[i])) ==> got == Ok::<
                (Seq<u8>, nat),
                DohFault,
            >((answers[k].data, answers[k].ttl as nat))
            &&& (forall|i: int| 0 <= i < answers.len() ==> !has_address(#[trigger] answers[i]))
                ==> got == Err::<(Seq<u8>, nat), DohFault>(DohFault::NoAddress)
        }),
{
    let buf = message(id, flags, more, questions, answers) + after;
    let start = lemma_message_parts(id, flags, more, questions, answers, after);
    lemma_first_of(buf.take(start), answers, after, k);
}

proof fn lemma_first_of(before: Seq<u8>, answers: Seq<Answer>, after: Seq<u8>, k: int)
    requires
        forall|i: int| 0 <= i < answers.len() ==> is_answer(#[trigger] answers[i]),
    ensures
        ({
            let buf = before + answers_bytes(answers) + after;
            let got = doh::first_address(buf, before.len() as int, answers.len());
            &&& 0 <= k < answers.len() && has_address(answers[k]) && (forall|i: int|
                0 <= i < k ==> !has_address(#[trigger] answers[i])) ==> got == Ok::<
                (Seq<u8>, nat),
                DohFault,
            >((answers[k].data, answers[k].ttl as nat))
            &&& (forall|i: int| 0 <= i < answers.len() ==> !has_address(#[trigger] answers[i]))
                ==> got == Err::<(Seq<u8>, nat), DohFault>(DohFault::NoAddress)
        }),
    decreases answers.len(),
{
    let buf = before + answers_bytes(answers) + after;
    if answers.len() > 0 {
        let rest = answers.drop_first();
        let first = answer_bytes(answers[0]);
        assert forall|i: int| 0 <= i < rest.len() implies #[trigger] rest[i] == answers[i + 1] by {}
        assert forall|i: int| 0 <= i < rest.len() implies is_answer(#[trigger] rest[i]) by {
            assert(rest[i] == answers[i + 1]);
        }
        assert(is_answer(answers[0]));
        lemma_answer_at(before, answers[0], answers_bytes(rest) + after);
        lemma_first_of(before + first, rest, after, k - 1);
        assert(buf =~= before + first + (answers_bytes(rest) + after));
        assert(buf =~= (before + first) + answers_bytes(rest) + after);
        if !has_address(answers[0]) {
            if 0 < k < answers.len() && has_address(answers[k]) && (forall|i: int|
                0 <= i < k ==> !has_address(#[trigger] answers[i])) {
                assert(rest[k - 1] == answers[k]);
                assert forall|i: int| 0 <= i < k - 1 implies !has_address(#[trigger] rest[i]) by {
                    assert(rest[i] == answers[i + 1]);
                }
            }
            if forall|i: int| 0 <= i < answers.len() ==> !has_address(#[trigger] answers[i]) {
                assert forall|i: int| 0 <= i < rest.len() implies !has_address(
                    #[trigger] rest[i],
                ) by {
                    assert(rest[i] == answers[i + 1]);
                }
            }
        }
    }
}

/// The addresses of the records that have one, in their order.
pub open spec fn addresses_of(answers: Seq<Answer>) -> Seq<Seq<u8>>
    decreases answers.len(),
{
    if answers.len() == 0 {
        Seq::empty()
    } else if has_address(answers[0]) {
        seq![answers[0].data] + addresses_of(answers.drop_first())
    } else {
        addresses_of(answers.drop_first())
    }
}

/// The answer over UDP is every address of its records, in their order, and a time to
/// live that is that of some record with an address and no longer than that of any; a
/// message with another identifier is none.
pub proof fn lemma_all_addresses(
    id: u16,
    expected: u16,
    flags: u16,
    more: u32,
    questions: Seq<Question>,
    answers: Seq<Answer>,
    after: Seq<u8>,
)
    requires
        are_questions(questions),
        are_answers(answers),
    ensures
        ({
            let buf = message(id, flags, more, questions, answers) + after;
            &&& expected != id ==> dns::response_of(buf, expected) == Err::<
                (Seq<Seq<u8>>, nat),
                DnsError,
            >(DnsError::WrongId(expected, id))
            &&& dns::response_of(buf, id) is Ok
            &&& dns::response_of(buf, id)->Ok_0.0 == addresses_of(answers)
            &&& forall|i: int|
                0 <= i < answers.len() && has_address(#[trigger] answers[i]) ==> dns::response_of(
                    buf,
                    id,
                )->Ok_0.1 <= answers[i].ttl
            &&& addresses_of(answers).len() > 0 ==> exists|i: int|
                0 <= i < answers.len() && has_address(#[trigger] answers[i]) && answers[i].ttl
                    == dns::response_of(buf, id)->Ok_0.1
        }),
{
    let buf = message(id, flags, more, questions, answers) + after;
    let start = lemma_message_parts(id, flags, more, questions, answers, after);
    lemma_answers_at(buf.take(start), answers, after);
    lemma_addresses(answers);
    lemma_least_ttl(answers);
}

proof fn lemma_addresses(answers: Seq<Answer>)
    ensures
        dns::addresses(records_of(answers)) == addresses_of(answers),
    decreases answers.len(),
{
    let rs = records_of(answers);
    if answers.len() == 0 {
        assert(dns::addresses(rs) =~= addresses_of(answers));
    } else {
        let front = answers.drop_last();
        assert(rs.drop_last() =~= records_of(front));
        lemma_addresses(front);
        lemma_addresses_last(answers);
    }
}

proof fn lemma_addresses_last(answers: Seq<Answer>)
    requires
        answers.len() > 0,
    ensures
        addresses_of(answers) == if has_address(answers.last()) {
            addresses_of(answers.drop_last()).push(answers.last().data)
        } else {
            addresses_of(answers.drop_last())
        },
    decreases answers.len(),
{
    let rest = answers.drop_first();
    if answers.len() == 1 {
        assert(rest =~= Seq::empty());
        assert(answers.drop_last() =~= Seq::empty());
        assert(addresses_of(rest) =~= Seq::empty());
        assert(addresses_of(answers) =~= if has_address(answers.last()) {
            addresses_of(answers.drop_last()).push(answers.last().data)
        } else {
            addresses_of(answers.drop_last())
        });
    } else {
        lemma_addresses_last(rest);
        assert(rest.drop_last() =~= answers.drop_last().drop_first());
        assert(rest.last() == answers.last());
        assert(answers.drop_last()[0] == answers[0]);
        assert(addresses_of(answers) =~= if has_address(answers.last()) {
            addresses_of(answers.drop_last()).push(answers.last().data)
        } else {
            addresses_of(answers.drop_last())
        });
    }
}

proof fn lemma_least_ttl(answers: Seq<Answer>)
    ensures
        dns::least_ttl(records_of(answers)) <= u32::MAX,
        forall|i: int|
            0 <= i < answers.len() && has_address(#[trigger] answers[i]) ==> dns::least_ttl(
                records_of(answers),
            ) <= answers[i].ttl,
        addresses_of(answers).len() > 0 ==> exists|i: int|
            0 <= i < answers.len() && has_address(#[trigger] answers[i]) && answers[i].ttl
                == dns::least_ttl(records_of(answers)),
    decreases answers.len(),
{
    let rs = records_of(answers);
    if answers.len() > 0 {
        let front = answers.drop_last();
        let n = answers.len() - 1;
        assert(rs.drop_last() =~= records_of(front));
        lemma_least_ttl(front);
        lemma_addresses_last(answers);
        let least = dns::least_ttl(rs);
        assert forall|i: int| 0 <= i < answers.len() && has_address(
            #[trigger] answers[i],
        ) implies least <= answers[i].ttl by {
            if i < n {
                assert(front[i] == answers[i]);
            }
        }
        if addresses_of(answers).len() > 0 {
            if has_address(answers[n]) && answers[n].ttl == least {
            } else if addresses_of(front).len() > 0 {
                let i = choose|i: int|
                    0 <= i < front.len() && has_address(#[trigger] front[i]) && front[i].ttl
                        == dns::least_ttl(records_of(front));
                assert(answers[i] == front[i]);
            } else {
                lemma_no_address(front);
                assert(has_address(answers[n]));
                assert(dns::least_ttl(records_of(front)) == u32::MAX);
            }
        }
    }
}

proof fn lemma_no_address(answers: Seq<Answer>)
    requires
        addresses_of(answers).len() == 0,
    ensures
        dns::least_ttl(records_of(answers)) == u32::MAX,
    decreases answers.len(),
{
    if answers.len() > 0 {
        lemma_addresses_last(answers);
        assert(records_of(answers).drop_last() =~= records_of(answers.drop_last()));
        lemma_no_address(answers.drop_last());
    }
}

proof fn lemma_name_cut(buf: Seq<u8>, pos: int, come: int)
    requires
        0 <= pos,
        0 <= come <= buf.len(),
        dns::name_end(buf, pos) is Ok,
    ensures
        ({
            let end = dns::name_end(buf, pos)->Ok_0;
            &&& pos < end
            &&& end <= come ==> dns::name_end(buf.take(come), pos) == Ok::<int, DnsError>(end)
            &&& end > come ==> dns::name_end(buf.take(come), pos) is Err
        }),
    decreases buf.len() - pos,
{
    let part = buf.take(come);
    if pos < buf.len() {
        if pos < come {
            assert(part[pos] == buf[pos]);
        }
        if buf[pos] != 0 && buf[pos] < 0xc0 {
            assert(dns::name_end(buf, pos) == dns::name_end(buf, pos + 1 + buf[pos]));
            assert(pos + 1 + buf[pos] < buf.len());
            lemma_name_cut(buf, pos + 1 + buf[pos], come);
        }
    }
}

proof fn lemma_questions_cut(buf: Seq<u8>, pos: int, n: nat, come: int)
    requires
        0 <= pos,
        0 <= come <= buf.len(),
        dns::questions_end(buf, pos, n) is Ok,
    ensures
        dns::questions_end(buf.take(come), pos, n) is Err || dns::questions_end(
            buf.take(come),
            pos,
            n,
        ) == dns::questions_end(buf, pos, n),
    decreases n,
{
    if n > 0 {
        lemma_name_cut(buf, pos, come);
        lemma_questions_cut(buf, dns::name_end(buf, pos)->Ok_0 + 4, (n - 1) as nat, come);
    }
}

proof fn lemma_answers_cut(before: Seq<u8>, answers: Seq<Answer>, come: int)
    requires
        forall|i: int| 0 <= i < answers.len() ==> is_answer(#[trigger] answers[i]),
        answers.len() > 0,
        0 <= come < (before + answers_bytes(answers)).len(),
    ensures
        dns::records_at(
            (before + answers_bytes(answers)).take(come),
            before.len() as int,
            answers.len(),
        ) is Err,
    decreases answers.len(),
{
    let buf = before + answers_bytes(answers);
    let pos = before.len() as int;
    let part = buf.take(come);
    let rest = answers.drop_first();
    let first = answer_bytes(answers[0]);
    let more = answers_bytes(rest);
    assert(is_answer(answers[0]));
    assert forall|i: int| 0 <= i < rest.len() implies is_answer(#[trigger] rest[i]) by {
        assert(rest[i] == answers[i + 1]);
    }
    lemma_answer_at(before, answers[0], more);
    assert(buf =~= before + first + more);
    let end = (before.len() + first.len()) as int;
    lemma_name_cut(buf, pos, come);
    let p = dns::name_end(buf, pos)->Ok_0;
    if p + 10 <= come {
        assert(part.subrange(p + 8, p + 10) =~= buf.subrange(p + 8, p + 10));
    }
    if end <= come {
        assert(part =~= (before + first) + part.skip(end));
        let r = dns::record_at(part, pos);
        assert(part.subrange(p, p + 2) =~= buf.subrange(p, p + 2));
        assert(part.subrange(p + 4, p + 8) =~= buf.subrange(p + 4, p + 8));
        assert(r is Ok && r->Ok_0.1 == end);
        assert(rest.len() > 0) by {
            if rest.len() == 0 {
                assert(more =~= Seq::empty());
            }
        }
        lemma_answers_cut(before + first, rest, come);
        assert(buf =~= (before + first) + more);
    }
}

/// A message with answers that has not come whole is refused, wherever it is cut off.
pub proof fn lemma_cut_message(
    id: u16,
    flags: u16,
    more: u32,
    questions: Seq<Question>,
    answers: Seq<Answer>,
    expected: u16,
    come: int,
)
    requires
        are_questions(questions),
        are_answers(answers),
        answers.len() > 0,
        0 <= come < message(id, flags, more, questions, answers).len(),
    ensures
        dns::response_of(
            message(id, flags, more, questions, answers).take(come),
            expected,
        ) is Err,
{
    let none = Seq::<u8>::empty();
    let buf = message(id, flags, more, questions, answers);
    let start = lemma_message_parts(id, flags, more, questions, answers, none);
    assert(buf + none =~= buf);
    let part = buf.take(come);
    if come >= 12 {
        assert(part.subrange(4, 6) =~= buf.subrange(4, 6));
        assert(part.subrange(6, 8) =~= buf.subrange(6, 8));
        lemma_questions_cut(buf, 12, questions.len(), come);
        assert(buf =~= buf.take(start) + answers_bytes(answers));
        lemma_answers_cut(buf.take(start), answers, come);
    }
}

// ---------------------------------------------------------------------------
// Queries

/// Labels joined by dots.
pub open spec fn dotted(labels: Seq<Seq<char>>) -> Seq<char>
    decreases labels.len(),
{
    if labels.len() == 0 {
        Seq::empty()
    } else if labels.len() == 1 {
        labels[0]
    } else {
        labels[0] + seq!['.'] + dotted(labels.drop_first())
    }
}

/// The bytes of labels.
pub open spec fn utf8_labels(labels: Seq<Seq<char>>) -> Seq<Seq<u8>> {
    Seq::new(labels.len(), |i: int| encode_utf8(labels[i]))
}

proof fn lemma_dotted_labels(labels: Seq<Seq<char>>)
    requires
        labels.len() > 0,
        forall|i: int| 0 <= i < labels.len() ==> !(#[trigger] labels[i]).contains('.'),
    ensures
        text::split_at_char(dotted(labels), '.') == labels,
    decreases labels.len(),
{
    assert(!labels[0].contains('.'));
    if labels.len() == 1 {
        crate::addr::lemma_split_one(labels[0], '.');
        assert(labels =~= seq![labels[0]]);
    } else {
        let rest = labels.drop_first();
        assert forall|i: int| 0 <= i < rest.len() implies !(#[trigger] rest[i]).contains('.') by {
            assert(rest[i] == labels[i + 1]);
        }
        lemma_dotted_labels(rest);
        crate::addr::lemma_split_cons(labels[0], '.', dotted(rest));
        assert(labels =~= seq![labels[0]] + rest);
    }
}

proof fn lemma_dotted_last(labels: Seq<Seq<char>>)
    requires
        labels.len() > 0,
        labels.last().len() > 0,
    ensures
        dotted(labels).len() > 0,
        dotted(labels).last() == labels.last().last(),
    decreases labels.len(),
{
    if labels.len() > 1 {
        let rest = labels.drop_first();
        assert(rest.last() == labels.last());
        lemma_dotted_last(rest);
        let d = dotted(labels);
        assert(d.last() == dotted(rest).last());
    }
}

proof fn lemma_labels_bytes(labels: Seq<Seq<char>>)
    requires
        dns::labels_fit(labels),
    ensures
        dns::labels_bytes(labels) + seq![0u8] == spelled(utf8_labels(labels)),
    decreases labels.len(),
{
    let u = utf8_labels(labels);
    if labels.len() == 0 {
        assert(dns::labels_bytes(labels) + seq![0u8] =~= spelled(u));
    } else {
        let rest = labels.drop_first();
        assert forall|i: int| 0 <= i < rest.len() implies 1 <= encode_utf8(#[trigger] rest[i]).len()
            <= 63 by {
            assert(rest[i] == labels[i + 1]);
        }
        lemma_labels_bytes(rest);
        dns::lemma_labels_cons(labels);
        assert(u.drop_first() =~= utf8_labels(rest));
        assert(1 <= encode_utf8(labels[0]).len() <= 63);
        assert(dns::label_bytes(labels[0]) =~= seq![u[0].len() as u8] + u[0]);
        assert(dns::labels_bytes(labels) + seq![0u8] =~= seq![u[0].len() as u8] + u[0] + (
        dns::labels_bytes(rest) + seq![0u8]));
    }
}

/// A query is its identifier, the flag that asks for recursion, one question and no
/// answers, the labels of the name, the type and the class IN. One dot or several at
/// the end of the name do not count.
pub proof fn lemma_query_form(id: u16, labels: Seq<Seq<char>>, dots: nat, qtype: u16)
    requires
        labels.len() > 0,
        forall|i: int| 0 <= i < labels.len() ==> !(#[trigger] labels[i]).contains('.'),
        dns::labels_fit(labels),
    ensures
        ({
            let name = dotted(labels) + Seq::new(dots, |i: int| '.');
            dns::query_bytes(id, name, qtype) == two_bytes(id) + seq![
                1u8,
                0,
                0,
                1,
                0,
                0,
                0,
                0,
                0,
                0,
            ] + spelled(utf8_labels(labels)) + two_bytes(qtype) + two_bytes(1)
        }),
{
    let bare = dotted(labels);
    let name = bare + Seq::new(dots, |i: int| '.');
    let last = labels[labels.len() - 1];
    assert(1 <= encode_utf8(last).len());
    assert(last.len() > 0);
    lemma_dotted_last(labels);
    assert(last.last() != '.') by {
        assert(last.contains(last.last()));
    }
    lemma_dots_go(bare, dots);
    lemma_dotted_labels(labels);
    lemma_labels_bytes(labels);
    reveal_with_fuel(wire::be_bytes, 3);
    assert(wire::be_bytes(id as nat, 2) =~= two_bytes(id));
    assert(wire::be_bytes(qtype as nat, 2) =~= two_bytes(qtype));
    assert(two_bytes(1) =~= seq![0u8, 1]);
    let fixed = seq![1u8, 0, 0, 1, 0, 0, 0, 0, 0, 0];
    assert(dns::query_bytes(id, name, qtype) =~= two_bytes(id) + fixed + (dns::labels_bytes(labels)
        + seq![0u8]) + two_bytes(qtype) + two_bytes(1));
}

proof fn lemma_dots_go(bare: Seq<char>, dots: nat)
    requires
        bare.len() > 0,
        bare.last() != '.',
    ensures
        dns::without_dots(bare + Seq::new(dots, |i: int| '.')) == bare,
    decreases dots,
{
    let name = bare + Seq::new(dots, |i: int| '.');
    if dots > 0 {
        assert(name.last() == '.');
        assert(name.drop_last() =~= bare + Seq::new((dots - 1) as nat, |i: int| '.'));
        lemma_dots_go(bare, (dots - 1) as nat);
    } else {
        assert(name =~= bare);
    }
}

// ---------------------------------------------------------------------------
// Caches

/// An answer is kept for its time to live in seconds, but for no less than five and for
/// no more than three hundred.
pub proof fn lemma_kept(ttl: nat)
    ensures
        ttl <= 5 ==> dns::kept_ms(ttl) == 5000,
        5 <= ttl <= 300 ==> dns::kept_ms(ttl) == ttl * 1000,
        300 <= ttl ==> dns::kept_ms(ttl) == 300000,
{
}

/// What was put in the cache at `then` is found, under any case of its letters, at every
/// moment before its time is over and at none after it; a name that was not put is found
/// as it was before.
pub proof fn lemma_dns_cache(
    m: Map<Seq<char>, CacheEntry>,
    full: bool,
    name: Seq<char>,
    addrs: Vec<IpAddr>,
    ttl: nat,
    then: u64,
    asked: Seq<char>,
    now: u64,
)
    requires
        then <= now,
        then <= u64::MAX - 300000,
        5 <= ttl <= 300,
    ensures
        ({
            let got = dns::found(dns::with_answer(m, full, name, addrs, ttl, then), asked, now);
            &&& http::same_ignoring_case(asked, name) && now < then + ttl * 1000 ==> got == Some(
                addrs@,
            )
            &&& http::same_ignoring_case(asked, name) && now >= then + ttl * 1000 ==> got is None
            &&& !http::same_ignoring_case(asked, name) ==> got == dns::found(m, asked, now)
        }),
{
    dns::lemma_cache_read_back(m, full, name, addrs, ttl, then, asked, now);
    let a = dns::lower_text(asked);
    let b = dns::lower_text(name);
    if http::same_ignoring_case(asked, name) {
        assert forall|i: int| 0 <= i < a.len() implies a[i] == b[i] by {
            assert(http::lower(asked[i]) == http::lower(name[i]));
        }
        assert(a =~= b);
    } else if a == b {
        assert(a.len() == asked.len() && b.len() == name.len());
        assert forall|i: int| 0 <= i < asked.len() implies http::lower(#[trigger] asked[i])
            == http::lower(name[i]) by {
            assert(a[i] == http::lower(asked[i]));
            assert(b[i] == http::lower(name[i]));
        }
    }
}

/// The same of the cache of answers over HTTPS, whose names are as they were written.
pub proof fn lemma_doh_cache(
    m: Map<Seq<char>, DohEntry>,
    domain: Seq<char>,
    ip: IpAddr,
    ttl: nat,
    then: u64,
    asked: Seq<char>,
    now: u64,
)
    requires
        then <= u64::MAX - 300000,
        5 <= ttl <= 300,
    ensures
        ({
            let got = doh::found(doh::with_address(m, domain, ip, ttl, then), asked, now);
            &&& asked == domain && now < then + ttl * 1000 ==> got == Some(ip)
            &&& asked == domain && now >= then + ttl * 1000 ==> got is None
            &&& asked != domain ==> got == doh::found(m, asked, now)
        }),
{
    doh::lemma_cache_read_back(m, domain, ip, ttl, then, asked, now);
}

// ---------------------------------------------------------------------------
// Responses over HTTPS

/// The body of a response with status 200 and a length is as many bytes behind the
/// head, once they are there; every other status is refused with its number, and a
/// response without a length too.
pub proof fn lemma_doh_body(
    rest: Seq<u8>,
    status: u16,
    headers: http::HeadersView,
    i: int,
    length: nat,
)
    requires
        length <= usize::MAX,
    ensures
        status != 200 ==> doh::body_by_head(rest, Some((Some(status), headers)))
            == DohReadView::Failed(DohFault::Status(status)),
        doh::body_by_head(rest, None) == DohReadView::Failed(DohFault::BadHead),
        (forall|k: int|
            0 <= k < headers.len() ==> !http::same_ignoring_case(
                #[trigger] headers[k].0,
                "content-length"@,
            )) ==> doh::body_by_head(rest, Some((Some(200u16), headers))) == DohReadView::Failed(
            DohFault::NoLength,
        ),
        0 <= i < headers.len() && http::same_ignoring_case(headers[i].0, "content-length"@) && (
        forall|k: int|
            0 <= k < i ==> !http::same_ignoring_case(#[trigger] headers[k].0, "content-length"@))
            && headers[i].1 == encode_utf8(text::decimal(length)) ==> doh::body_by_head(
            rest,
            Some((Some(200u16), headers)),
        ) == if rest.len() < length {
            DohReadView::NeedBody
        } else {
            DohReadView::Body(rest.take(length as int))
        },
{
    proxy::lemma_header_value(headers, "content-length"@, i);
    let d = text::decimal(length);
    encode_utf8_valid_utf8(d);
    encode_utf8_decode_utf8(d);
    text::lemma_decimal(length);
    text::lemma_decimal_read_back(length);
    assert(text::is_digit(d[0]) && text::is_digit(d[d.len() - 1]));
    text::lemma_trimmed_unchanged(d);
}

/// A response is read once the empty line behind its head has come, and its head is
/// what stands up to there.
pub proof fn lemma_doh_head(head: Seq<u8>, rest: Seq<u8>)
    requires
        forall|i: int| 0 <= i < head.len() ==> !wire::bytes_match_at(
            head + seq![13u8, 10, 13, 10] + rest,
            seq![13u8, 10, 13, 10],
            i,
        ),
    ensures
        ({
            let whole = head + seq![13u8, 10, 13, 10];
            doh::response_read(whole + rest) == doh::body_by_head(rest, http::response_head(whole))
        }),
{
    let whole = head + seq![13u8, 10, 13, 10];
    let buf = whole + rest;
    let mark = seq![13u8, 10, 13, 10];
    assert(doh::empty_line() =~= mark);
    let n = head.len() as int;
    assert(buf.subrange(n, n + 4) =~= mark);
    lemma_first_match(buf, mark, 0, n);
    assert(buf.skip(n + 4) =~= rest);
    assert(buf.take(n + 4) =~= whole);
}

/// While the empty line behind the head has not come, more is waited for, as long as no
/// more than 8192 bytes have.
pub proof fn lemma_doh_head_waits(buf: Seq<u8>)
    requires
        forall|i: int|
            0 <= i < buf.len() ==> !wire::bytes_match_at(buf, seq![13u8, 10, 13, 10], i),
    ensures
        buf.len() <= 8192 ==> doh::response_read(buf) == DohReadView::NeedHead,
        buf.len() > 8192 ==> doh::response_read(buf) == DohReadView::Failed(DohFault::HeadTooLarge),
{
    let mark = seq![13u8, 10, 13, 10];
    assert(doh::empty_line() =~= mark);
    lemma_no_match(buf, mark, 0);
}

proof fn lemma_no_match(s: Seq<u8>, p: Seq<u8>, pos: int)
    requires
        0 <= pos,
        p.len() > 0,
        forall|i: int| pos <= i < s.len() ==> !wire::bytes_match_at(s, p, i),
    ensures
        wire::bytes_at(s, p, pos) < 0,
    decreases s.len() - pos,
{
    if pos < s.len() {
        lemma_no_match(s, p, pos + 1);
    } else {
        assert(wire::bytes_at(s, p, pos + 1) == -1);
    }
}

/// The label that makes a name unfit is the first that is empty or longer than 63 bytes;
/// a name without one is fit.
pub proof fn lemma_unfit_label(ls: Seq<Seq<char>>, k: int)
    ensures
        0 <= k < ls.len() && !(1 <= encode_utf8(ls[k]).len() <= 63) && (forall|i: int|
            0 <= i < k ==> 1 <= encode_utf8(#[trigger] ls[i]).len() <= 63) ==> doh::bad_label(ls)
            == Some(ls[k]),
        (forall|i: int| 0 <= i < ls.len() ==> 1 <= encode_utf8(#[trigger] ls[i]).len() <= 63)
            ==> doh::bad_label(ls) is None,
    decreases ls.len(),
{
    if ls.len() > 0 {
        let front = ls.drop_last();
        let n = ls.len() - 1;
        lemma_unfit_label(front, k);
        assert forall|i: int| 0 <= i < front.len() implies #[trigger] front[i] == ls[i] by {}
        if 0 <= k < ls.len() && !(1 <= encode_utf8(ls[k]).len() <= 63) && (forall|i: int|
            0 <= i < k ==> 1 <= encode_utf8(#[trigger] ls[i]).len() <= 63) {
            assert forall|i: int| 0 <= i < k && i < front.len() implies 1 <= encode_utf8(
                #[trigger] front[i],
            ).len() <= 63 by {
                assert(front[i] == ls[i]);
            }
            if k < n {
                assert(front[k] == ls[k]);
            }
        }
        if forall|i: int| 0 <= i < ls.len() ==> 1 <= encode_utf8(#[trigger] ls[i]).len() <= 63 {
            assert(1 <= encode_utf8(ls[n]).len() <= 63);
            assert forall|i: int| 0 <= i < front.len() implies 1 <= encode_utf8(
                #[trigger] front[i],
            ).len() <= 63 by {
                assert(front[i] == ls[i]);
            }
        }
    }
}

proof fn lemma_first_match(s: Seq<u8>, p: Seq<u8>, pos: int, n: int)
    requires
        0 <= pos <= n <= s.len(),
        wire::bytes_match_at(s, p, n),
        forall|i: int| pos <= i < n ==> !wire::bytes_match_at(s, p, i),
    ensures
        wire::bytes_at(s, p, pos) == n,
    decreases n - pos,
{
    if pos < n {
        lemma_first_match(s, p, pos + 1, n);
    }
}

} // verus!
