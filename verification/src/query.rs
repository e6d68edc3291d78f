//! Queries as a client writes them, and what becomes of each.

use vstd::prelude::*;
use vstd::utf8::{partial_valid_utf8_extend_ascii_block, valid_utf8};

use crate::dns::{
    and_then_scan, answer_to, answerable, answers, be16, be16_bytes, be32_bytes, complete, dotted,
    header_at, heard, is_answerable, is_request, lemma_dotted_push, lemma_len_front,
    lemma_scan_step, name_at, name_size, name_text, names_len, overlay, past_question, question_at,
    questions_len, replied, reply_header, reply_in, reply_len, scan, scan_of, Asked, DnsAnswer,
    DnsHeader, DnsQuestion, Scan,
};

verus! {

/// A question as it is asked: the labels of a name, and what is wanted of it.
pub struct Query {
    pub labels: Seq<Seq<u8>>,
    pub type_: u16,
    pub class: u16,
}

/// Labels on the wire, each behind its length.
pub open spec fn labels_wire(labels: Seq<Seq<u8>>) -> Seq<u8>
    decreases labels.len(),
{
    if labels.len() == 0 {
        Seq::empty()
    } else {
        seq![labels[0].len() as u8] + labels[0] + labels_wire(labels.skip(1))
    }
}

/// Labels as they are written out, a dot behind each.
pub open spec fn spelled(labels: Seq<Seq<u8>>) -> Seq<u8>
    decreases labels.len(),
{
    if labels.len() == 0 {
        Seq::empty()
    } else {
        spelled(labels.drop_last()) + labels.last() + seq![0x2Eu8]
    }
}

/// Whether labels can be written with their lengths in front.
pub open spec fn are_labels(labels: Seq<Seq<u8>>) -> bool {
    forall|i: int| 0 <= i < labels.len() ==> 1 <= (#[trigger] labels[i]).len() <= 255
}

/// Whether a name is one that can be asked for: it takes up at most 128 bytes
/// with its terminator, and it is text.
pub open spec fn is_name(labels: Seq<Seq<u8>>) -> bool {
    &&& are_labels(labels)
    &&& labels_wire(labels).len() + 1 <= 128
    &&& valid_utf8(seq![0u8] + spelled(labels))
}

/// A question on the wire: its name, a zero, and two numbers, high bytes first.
pub open spec fn query_wire(q: Query) -> Seq<u8> {
    labels_wire(q.labels) + seq![
        0u8,
        (q.type_ as int / 256) as u8,
        (q.type_ as int % 256) as u8,
        (q.class as int / 256) as u8,
        (q.class as int % 256) as u8,
    ]
}

/// Questions on the wire, one behind the other.
pub open spec fn queries_wire(qs: Seq<Query>) -> Seq<u8>
    decreases qs.len(),
{
    if qs.len() == 0 {
        Seq::empty()
    } else {
        query_wire(qs[0]) + queries_wire(qs.skip(1))
    }
}

/// Whether every question asks for a name that can be asked for.
pub open spec fn are_queries(qs: Seq<Query>) -> bool {
    forall|i: int| 0 <= i < qs.len() ==> is_name((#[trigger] qs[i]).labels)
}

/// How many bytes the names of some questions take up, with their terminators.
pub open spec fn names_wire_len(qs: Seq<Query>) -> int
    decreases qs.len(),
{
    if qs.len() == 0 {
        0
    } else {
        names_wire_len(qs.drop_last()) + labels_wire(qs.last().labels).len() + 1
    }
}

/// The answer that is owed to a question: sixteen bytes if it is of type 1, with a
/// pointer to `at`, the question's type and class, a lifetime of a minute and the
/// four bytes of the address.
pub open spec fn answer_wire(q: Query, ip: u32, at: int) -> Seq<u8> {
    if q.type_ == 1 {
        seq![
            (192 + at / 256) as u8,
            (at % 256) as u8,
            0u8,
            1u8,
            (q.class as int / 256) as u8,
            (q.class as int % 256) as u8,
            0u8,
            0u8,
            0u8,
            60u8,
            0u8,
            4u8,
            (ip as int / 0x100_0000) as u8,
            (ip as int / 0x1_0000 % 256) as u8,
            (ip as int / 0x100 % 256) as u8,
            (ip as int % 256) as u8,
        ]
    } else {
        Seq::empty()
    }
}

/// The answers that are owed, in the order of the questions. The pointers count on
/// from the end of the header, name by name.
pub open spec fn answers_wire(qs: Seq<Query>, ip: u32) -> Seq<u8>
    decreases qs.len(),
{
    if qs.len() == 0 {
        Seq::empty()
    } else {
        answers_wire(qs.drop_last(), ip) + answer_wire(
            qs.last(),
            ip,
            12 + names_wire_len(qs.drop_last()),
        )
    }
}

/// What a scan makes of questions.
spec fn asked_of(qs: Seq<Query>) -> Seq<Asked> {
    Seq::new(
        qs.len(),
        |i: int|
            Asked {
                size: labels_wire(qs[i].labels).len() + 1int,
                question: Some(DnsQuestion { type_: qs[i].type_, class: qs[i].class }),
            },
    )
}

/// Labels are written out as long as they are on the wire, one dot for each
/// length.
pub proof fn law_spelled(labels: Seq<Seq<u8>>)
    ensures
        dotted(labels) == spelled(labels),
        spelled(labels).len() == labels_wire(labels).len(),
        name_size(labels) == labels_wire(labels).len() + 1,
        name_text(labels) == seq![0u8] + spelled(labels),
    decreases labels.len(),
{
    lemma_spelled(labels);
    lemma_wire_len(labels);
}

proof fn lemma_spelled(labels: Seq<Seq<u8>>)
    ensures
        dotted(labels) == spelled(labels),
    decreases labels.len(),
{
    if labels.len() > 0 {
        lemma_spelled(labels.drop_last());
        lemma_dotted_push(labels.drop_last(), labels.last());
        assert(labels.drop_last().push(labels.last()) =~= labels);
    }
}

proof fn lemma_wire_len(labels: Seq<Seq<u8>>)
    ensures
        dotted(labels).len() == labels_wire(labels).len(),
    decreases labels.len(),
{
    if labels.len() > 0 {
        lemma_wire_len(labels.skip(1));
    }
}

/// A name whose labels are all ASCII is text.
pub proof fn law_ascii_is_text(labels: Seq<Seq<u8>>)
    requires
        forall|i: int, j: int|
            0 <= i < labels.len() && 0 <= j < labels[i].len() ==> #[trigger] labels[i][j] < 128,
    ensures
        valid_utf8(seq![0u8] + spelled(labels)),
{
    lemma_ascii(labels);
    let text = seq![0u8] + spelled(labels);
    assert(text.subrange(0, 0) =~= Seq::<u8>::empty());
    partial_valid_utf8_extend_ascii_block(text, 0, text.len() as int);
    assert(text.subrange(0, text.len() as int) =~= text);
}

proof fn lemma_ascii(labels: Seq<Seq<u8>>)
    requires
        forall|i: int, j: int|
            0 <= i < labels.len() && 0 <= j < labels[i].len() ==> #[trigger] labels[i][j] < 128,
    ensures
        forall|i: int| 0 <= i < spelled(labels).len() ==> #[trigger] spelled(labels)[i] < 128,
    decreases labels.len(),
{
    if labels.len() > 0 {
        let front = labels.drop_last();
        assert forall|i: int, j: int|
            0 <= i < front.len() && 0 <= j < front[i].len() implies (
            #[trigger] front[i][j]) < 128 by {
            assert(labels[i][j] < 128);
        }
        lemma_ascii(front);
        let last = labels[labels.len() - 1];
        assert forall|i: int| 0 <= i < spelled(labels).len() implies #[trigger] spelled(labels)[i]
            < 128 by {
            if spelled(front).len() <= i < spelled(front).len() + last.len() {
                assert(labels[labels.len() - 1][i - spelled(front).len()] < 128);
            }
        }
    }
}

/// Labels at the front of a message are taken off it one by one; how the name
/// goes on decides the rest.
proof fn lemma_labels(labels: Seq<Seq<u8>>, tail: Seq<u8>, room: int)
    requires
        are_labels(labels),
        labels_wire(labels).len() < room,
    ensures
        ({
            let later = name_at(tail, room - labels_wire(labels).len());
            let name = name_at(labels_wire(labels) + tail, room);
            &&& name.labels == labels + later.labels
            &&& name.rest == later.rest
            &&& name.ending == later.ending
        }),
    decreases labels.len(),
{
    let wire = labels_wire(labels);
    let req = wire + tail;
    if labels.len() == 0 {
        assert(req =~= tail);
        assert(labels + name_at(tail, room).labels =~= name_at(tail, room).labels);
    } else {
        let n = labels[0].len() as int;
        let others = labels.skip(1);
        assert forall|i: int| 0 <= i < others.len() implies 1 <= (#[trigger] others[i]).len()
            <= 255 by {
            assert(others[i] == labels[i + 1]);
        }
        assert(req[0] == n);
        let rest = req.skip(1);
        assert(rest.take(n) =~= labels[0]);
        assert(rest.skip(n) =~= labels_wire(others) + tail);
        lemma_labels(others, tail, room - 1 - n);
        let later = name_at(tail, room - wire.len());
        assert(seq![labels[0]] + (others + later.labels) =~= labels + later.labels);
    }
}

/// A whole name at the front of a message.
pub proof fn law_name_is_read(labels: Seq<Seq<u8>>, tail: Seq<u8>, room: int)
    requires
        are_labels(labels),
        labels_wire(labels).len() + 1 <= room,
    ensures
        ({
            let name = name_at(labels_wire(labels) + seq![0u8] + tail, room);
            &&& name.ending is Whole
            &&& name.labels == labels
            &&& name.rest == tail
        }),
{
    let after = seq![0u8] + tail;
    lemma_labels(labels, after, room);
    assert(labels_wire(labels) + seq![0u8] + tail =~= labels_wire(labels) + after);
    assert(after.skip(1) =~= tail);
    assert(labels + Seq::<Seq<u8>>::empty() =~= labels);
}

proof fn lemma_scan_one(q: Query, tail: Seq<u8>, n: nat)
    requires
        is_name(q.labels),
    ensures
        scan(query_wire(q) + tail, n + 1) == and_then_scan(
            seq![
                Asked {
                    size: labels_wire(q.labels).len() + 1int,
                    question: Some(DnsQuestion { type_: q.type_, class: q.class }),
                },
            ],
            scan(tail, n),
        ),
{
    let numbers = seq![
        (q.type_ as int / 256) as u8,
        (q.type_ as int % 256) as u8,
        (q.class as int / 256) as u8,
        (q.class as int % 256) as u8,
    ];
    law_spelled(q.labels);
    law_name_is_read(q.labels, numbers + tail, 128);
    assert(query_wire(q) + tail =~= labels_wire(q.labels) + seq![0u8] + (numbers + tail));
    assert((numbers + tail).skip(4) =~= tail);
}

/// Questions at the front of a message are taken off it one by one.
proof fn lemma_scan(qs: Seq<Query>, tail: Seq<u8>, n: nat)
    requires
        are_queries(qs),
    ensures
        scan(queries_wire(qs) + tail, qs.len() + n) == and_then_scan(asked_of(qs), scan(tail, n)),
    decreases qs.len(),
{
    if qs.len() == 0 {
        assert(queries_wire(qs) + tail =~= tail);
        if let Scan::Parsed(more) = scan(tail, n) {
            assert(asked_of(qs) + more =~= more);
        }
    } else {
        let others = qs.skip(1);
        assert forall|i: int| 0 <= i < others.len() implies is_name(
            (#[trigger] others[i]).labels,
        ) by {
            assert(others[i] == qs[i + 1]);
        }
        lemma_scan(others, tail, n);
        lemma_scan_one(qs[0], queries_wire(others) + tail, (others.len() + n) as nat);
        assert(queries_wire(qs) + tail =~= query_wire(qs[0]) + (queries_wire(others) + tail));
        assert(asked_of(qs) =~= seq![asked_of(qs)[0]] + asked_of(others));
        if let Scan::Parsed(more) = scan(tail, n) {
            assert(asked_of(qs) + more =~= seq![asked_of(qs)[0]] + (asked_of(others) + more));
        }
    }
}

proof fn lemma_lengths(qs: Seq<Query>)
    ensures
        questions_len(asked_of(qs)) == queries_wire(qs).len(),
        names_len(asked_of(qs)) == names_wire_len(qs),
    decreases qs.len(),
{
    if qs.len() > 0 {
        lemma_lengths(qs.skip(1));
        lemma_len_front(asked_of(qs)[0], asked_of(qs.skip(1)));
        assert(asked_of(qs) =~= seq![asked_of(qs)[0]] + asked_of(qs.skip(1)));
        lemma_lengths(qs.drop_last());
        assert(asked_of(qs).drop_last() =~= asked_of(qs.drop_last()));
    }
}

proof fn lemma_be32(v: u32)
    ensures
        be32_bytes(v) == seq![
            (v as int / 0x100_0000) as u8,
            (v as int / 0x1_0000 % 256) as u8,
            (v as int / 0x100 % 256) as u8,
            (v as int % 256) as u8,
        ],
{
    let n = v as int;
    assert(n / 0x1_0000 / 256 == n / 0x100_0000 && n % 0x1_0000 / 256 == n / 0x100 % 256 && n
        % 0x1_0000 % 256 == n % 256);
}

proof fn lemma_pointer(at: int)
    requires
        12 <= at < 0x4000,
    ensures
        be16_bytes(0xC000u16 | (at as u16)) == seq![(192 + at / 256) as u8, (at % 256) as u8],
{
    let place = at as u16;
    assert(place < 0x4000u16 ==> 0xC000u16 | place == 0xC000u16 + place) by (bit_vector);
}

proof fn lemma_answer(asked: Asked, q: Query, ip: u32, at: int)
    requires
        12 <= at < 0x4000,
        asked.question == Some(DnsQuestion { type_: q.type_, class: q.class }),
    ensures
        answer_to(asked, ip, at) == answer_wire(q, ip, at),
{
    lemma_be32(60);
    lemma_be32(ip);
    lemma_pointer(at);
    assert(be16_bytes(1) == seq![0u8, 1u8]);
    assert(be16_bytes(4) == seq![0u8, 4u8]);
    assert(answer_to(asked, ip, at) =~= answer_wire(q, ip, at));
}

proof fn lemma_answers(qs: Seq<Query>, ip: u32)
    requires
        12 + names_wire_len(qs) <= 0x4000,
    ensures
        answers(asked_of(qs), ip) == answers_wire(qs, ip),
        answers_wire(qs, ip).len() <= 16 * qs.len(),
    decreases qs.len(),
{
    if qs.len() > 0 {
        let front = qs.drop_last();
        lemma_names_len(front);
        lemma_answers(front, ip);
        lemma_lengths(front);
        assert(asked_of(qs).drop_last() =~= asked_of(front));
        let at = 12 + names_wire_len(front);
        lemma_answer(asked_of(qs).last(), qs.last(), ip, at);
    }
}

proof fn lemma_names_len(qs: Seq<Query>)
    ensures
        names_wire_len(qs) >= 0,
    decreases qs.len(),
{
    if qs.len() > 0 {
        lemma_names_len(qs.drop_last());
    }
}

/// A request is begun a reply for exactly when it fits the buffer, has a header
/// of twelve bytes, and the four bits of its opcode are zero.
pub proof fn law_heard(req: Seq<u8>, room: int)
    ensures
        heard(req, room) <==> 12 <= req.len() <= room && req[2] as int / 8 % 16 == 0,
{
    let flags = header_at(req).flags;
    assert((flags & 0x7800u16 == 0) == (flags / 2048 % 16 == 0)) by (bit_vector);
}

/// A request that fits the buffer, is a standard query, and whose questions are
/// all there and ask for names that are text gets a reply whenever header,
/// questions and sixteen bytes for each question fit. The reply has the id and
/// the flags of the request, marked as a reply, promises one answer to each
/// question, and repeats the questions.
pub proof fn law_query_is_answered(
    head: Seq<u8>,
    qs: Seq<Query>,
    more: Seq<u8>,
    ip: u32,
    buf: Seq<u8>,
)
    requires
        head.len() == 12,
        head[2] as int / 8 % 16 == 0,
        256 * head[4] + head[5] == qs.len(),
        are_queries(qs),
        12 + queries_wire(qs).len() + more.len() <= buf.len(),
        12 + queries_wire(qs).len() + 16 * qs.len() <= buf.len(),
    ensures
        ({
            let req = head + queries_wire(qs) + more;
            let end = 12 + queries_wire(qs).len();
            let list = scan_of(req)->Parsed_0;
            let reply = reply_in(req, list, ip, buf).take(reply_len(list));
            &&& answerable(req, buf.len() as int)
            &&& replied(req, buf.len() as int)
            &&& reply.len() == end + 16 * qs.len()
            &&& reply[0] == head[0]
            &&& reply[1] == head[1]
            &&& reply[2] == (if head[2] >= 128 {
                head[2] as int
            } else {
                head[2] + 128
            })
            &&& reply[3] == head[3]
            &&& reply[4] == head[4]
            &&& reply[5] == head[5]
            &&& reply[6] == head[4]
            &&& reply[7] == head[5]
            &&& reply[8] == 0
            &&& reply[9] == 0
            &&& reply[10] == 0
            &&& reply[11] == 0
            &&& reply.subrange(12, end as int) == queries_wire(qs)
        }),
{
    let req = head + queries_wire(qs) + more;
    let room = buf.len() as int;
    lemma_parsed(head, qs, more);
    law_heard(req, room);
    lemma_lengths(qs);
    let list = asked_of(qs);
    let end = 12 + queries_wire(qs).len();
    let reply = reply_in(req, list, ip, buf).take(reply_len(list));
    assert(complete(list));
    let flags = header_at(req).flags;
    assert(flags | 0x8000u16 == (if flags >= 0x8000u16 {
        flags
    } else {
        (flags + 0x8000u16) as u16
    })) by (bit_vector);
    let wire = reply_header(header_at(req)).wire();
    assert forall|i: int| 0 <= i < 12 implies reply[i] == wire[i] by {
        assert(overlay(buf, 0, wire)[i] == wire[i]);
    }
    assert(req.subrange(12, end as int) =~= queries_wire(qs));
    assert(reply.subrange(12, end as int) =~= queries_wire(qs));
}

proof fn lemma_parsed(head: Seq<u8>, qs: Seq<Query>, more: Seq<u8>)
    requires
        head.len() == 12,
        256 * head[4] + head[5] == qs.len(),
        are_queries(qs),
    ensures
        scan_of(head + queries_wire(qs) + more) == Scan::Parsed(asked_of(qs)),
{
    let req = head + queries_wire(qs) + more;
    lemma_scan(qs, more, 0);
    assert(req.skip(12) =~= queries_wire(qs) + more);
    assert(asked_of(qs) + Seq::<Asked>::empty() =~= asked_of(qs));
}

/// Behind the questions stand the answers that are owed, in the order of the
/// questions; what is left of the buffer stays as it was.
pub proof fn law_answers_are_given(
    head: Seq<u8>,
    qs: Seq<Query>,
    more: Seq<u8>,
    ip: u32,
    buf: Seq<u8>,
)
    requires
        head.len() == 12,
        256 * head[4] + head[5] == qs.len(),
        are_queries(qs),
        12 + queries_wire(qs).len() + 16 * qs.len() <= buf.len(),
        12 + names_wire_len(qs) <= 0x4000,
    ensures
        ({
            let req = head + queries_wire(qs) + more;
            let end = 12 + queries_wire(qs).len();
            let after = reply_in(req, scan_of(req)->Parsed_0, ip, buf);
            let owed = answers_wire(qs, ip);
            &&& after.len() == buf.len()
            &&& end + owed.len() <= buf.len()
            &&& after.subrange(end as int, (end + owed.len()) as int) == owed
            &&& after.skip((end + owed.len()) as int) == buf.skip((end + owed.len()) as int)
        }),
{
    let req = head + queries_wire(qs) + more;
    lemma_parsed(head, qs, more);
    lemma_lengths(qs);
    lemma_answers(qs, ip);
    let end = 12 + queries_wire(qs).len();
    let owed = answers_wire(qs, ip);
    let after = reply_in(req, asked_of(qs), ip, buf);
    assert(req.subrange(12, end as int).len() == queries_wire(qs).len());
    assert(after.subrange(end as int, (end + owed.len()) as int) =~= owed);
    assert(after.skip((end + owed.len()) as int) =~= buf.skip((end + owed.len()) as int));
}

/// Whether a request can be handled, and whether it gets a reply, rests on its
/// length, its opcode, its question count and what follows the header: not on
/// the id, the other flags, or the answer, authority and additional counts.
pub proof fn law_rest_of_header_ignored(a: Seq<u8>, b: Seq<u8>, room: int)
    requires
        12 <= a.len() == b.len(),
        a[2] as int / 8 % 16 == b[2] as int / 8 % 16,
        a[4] == b[4],
        a[5] == b[5],
        a.skip(12) == b.skip(12),
    ensures
        answerable(a, room) == answerable(b, room),
        replied(a, room) == replied(b, room),
{
    law_heard(a, room);
    law_heard(b, room);
}

/// No reply is owed to what is too long for the buffer, too short for a header,
/// or no standard query; it can be handled all the same.
pub proof fn law_not_heard(req: Seq<u8>, room: int)
    requires
        req.len() > room || req.len() < 12 || req[2] as int / 8 % 16 != 0,
    ensures
        answerable(req, room),
        !replied(req, room),
{
    law_heard(req, room);
}

/// A well-formed query gets no reply only for want of space.
pub proof fn law_reply_too_long(head: Seq<u8>, qs: Seq<Query>, more: Seq<u8>, room: int)
    requires
        head.len() == 12,
        256 * head[4] + head[5] == qs.len(),
        are_queries(qs),
        12 + queries_wire(qs).len() + 16 * qs.len() > room,
    ensures
        answerable(head + queries_wire(qs) + more, room),
        !replied(head + queries_wire(qs) + more, room),
{
    lemma_parsed(head, qs, more);
    lemma_lengths(qs);
}

/// A message that stops inside a name.
proof fn lemma_cut(labels: Seq<Seq<u8>>, part: Seq<u8>, room: int)
    requires
        are_labels(labels),
        labels_wire(labels).len() + 1 <= room,
        part.len() < labels_wire(labels).len() + 1,
        part == (labels_wire(labels) + seq![0u8]).take(part.len() as int),
    ensures
        name_at(part, room).ending is Broken,
    decreases labels.len(),
{
    let all = labels_wire(labels) + seq![0u8];
    if labels.len() > 0 && part.len() > 0 {
        let n = labels[0].len() as int;
        assert(part[0] == all[0]);
        let rest = part.skip(1);
        if n <= rest.len() {
            let others = labels.skip(1);
            assert forall|i: int| 0 <= i < others.len() implies 1 <= (#[trigger] others[i]).len()
                <= 255 by {
                assert(others[i] == labels[i + 1]);
            }
            let later = labels_wire(others) + seq![0u8];
            assert(all =~= seq![n as u8] + labels[0] + later);
            assert forall|i: int| 0 <= i < rest.skip(n).len() implies rest.skip(n)[i]
                == later[i] by {
                assert(part[i + 1 + n] == all[i + 1 + n]);
            }
            assert(rest.skip(n) =~= later.take(rest.skip(n).len() as int));
            lemma_cut(others, rest.skip(n), room - 1 - n);
        }
    }
}

/// A query that stops inside a name cannot be handled.
pub proof fn law_cut_name(
    head: Seq<u8>,
    qs: Seq<Query>,
    labels: Seq<Seq<u8>>,
    part: Seq<u8>,
    room: int,
)
    requires
        head.len() == 12,
        head[2] as int / 8 % 16 == 0,
        256 * head[4] + head[5] > qs.len(),
        are_queries(qs),
        are_labels(labels),
        labels_wire(labels).len() + 1 <= 128,
        part.len() < labels_wire(labels).len() + 1,
        part == (labels_wire(labels) + seq![0u8]).take(part.len() as int),
        12 + queries_wire(qs).len() + part.len() <= room,
    ensures
        !answerable(head + queries_wire(qs) + part, room),
{
    let req = head + queries_wire(qs) + part;
    let n = 256 * head[4] + head[5];
    law_heard(req, room);
    lemma_cut(labels, part, 128);
    lemma_scan(qs, part, (n - qs.len()) as nat);
    assert(req.skip(12) =~= queries_wire(qs) + part);
    assert(scan(part, (n - qs.len()) as nat) is Broken);
}

/// A query that stops between the last name and the end of its question cannot be
/// handled, unless the reply would not have fitted anyway.
pub proof fn law_cut_question(
    head: Seq<u8>,
    qs: Seq<Query>,
    labels: Seq<Seq<u8>>,
    part: Seq<u8>,
    room: int,
)
    requires
        head.len() == 12,
        head[2] as int / 8 % 16 == 0,
        256 * head[4] + head[5] == qs.len() + 1,
        are_queries(qs),
        is_name(labels),
        part.len() < 4,
        12 + queries_wire(qs).len() + labels_wire(labels).len() + 1 + part.len() <= room,
    ensures
        answerable(head + queries_wire(qs) + (labels_wire(labels) + seq![0u8] + part), room) <==> 12
            + queries_wire(qs).len() + labels_wire(labels).len() + 5 + 16 * (qs.len() + 1) > room,
{
    let tail = labels_wire(labels) + seq![0u8] + part;
    let req = head + queries_wire(qs) + tail;
    law_heard(req, room);
    law_spelled(labels);
    law_name_is_read(labels, part, 128);
    lemma_scan(qs, tail, 1);
    lemma_lengths(qs);
    assert(req.skip(12) =~= queries_wire(qs) + tail);
    let asked = Asked { size: labels_wire(labels).len() + 1int, question: None };
    assert(scan(part, 0) == Scan::Parsed(Seq::empty()));
    assert(seq![asked] + Seq::<Asked>::empty() =~= seq![asked]);
    assert(scan(tail, 1) == Scan::Parsed(seq![asked]));
    lemma_scan_step(asked_of(qs), asked, Scan::Parsed(Seq::empty()));
    let list = asked_of(qs) + seq![asked];
    assert(asked_of(qs).push(asked) =~= list);
    assert(list[qs.len() as int].question is None);
    assert(!complete(list));
}

/// A query with a name that is no text, or with a label that does not fit, can be
/// handled and gets no reply.
pub proof fn law_refused_name(
    head: Seq<u8>,
    qs: Seq<Query>,
    labels: Seq<Seq<u8>>,
    n: u8,
    tail: Seq<u8>,
    room: int,
)
    requires
        head.len() == 12,
        256 * head[4] + head[5] > qs.len(),
        are_queries(qs),
        are_labels(labels),
        labels_wire(labels).len() < 128,
        n == 0 ==> !valid_utf8(seq![0u8] + spelled(labels)),
        n > 0 ==> labels_wire(labels).len() + 1 + n > 128 && n <= tail.len(),
    ensures
        answerable(head + queries_wire(qs) + (labels_wire(labels) + seq![n] + tail), room),
        !replied(head + queries_wire(qs) + (labels_wire(labels) + seq![n] + tail), room),
{
    let name = labels_wire(labels) + seq![n] + tail;
    let req = head + queries_wire(qs) + name;
    let left = (256 * head[4] + head[5] - qs.len()) as nat;
    law_spelled(labels);
    lemma_labels(labels, seq![n] + tail, 128);
    assert(name =~= labels_wire(labels) + (seq![n] + tail));
    assert((seq![n] + tail).skip(1) =~= tail);
    assert(labels + Seq::<Seq<u8>>::empty() =~= labels);
    assert(scan(name, left) is Refused);
    lemma_scan(qs, name, left);
    assert(req.skip(12) =~= queries_wire(qs) + name);
}

/// A label that takes up the last byte of the room leaves none for its dot: such
/// a query cannot be handled.
pub proof fn law_filled_name(
    head: Seq<u8>,
    qs: Seq<Query>,
    labels: Seq<Seq<u8>>,
    n: u8,
    tail: Seq<u8>,
    room: int,
)
    requires
        head.len() == 12,
        head[2] as int / 8 % 16 == 0,
        256 * head[4] + head[5] > qs.len(),
        are_queries(qs),
        are_labels(labels),
        0 < n <= tail.len(),
        labels_wire(labels).len() + 1 + n == 128,
        12 + queries_wire(qs).len() + labels_wire(labels).len() + 1 + tail.len() <= room,
    ensures
        !answerable(head + queries_wire(qs) + (labels_wire(labels) + seq![n] + tail), room),
{
    let name = labels_wire(labels) + seq![n] + tail;
    let req = head + queries_wire(qs) + name;
    let left = (256 * head[4] + head[5] - qs.len()) as nat;
    law_heard(req, room);
    lemma_labels(labels, seq![n] + tail, 128);
    assert(name =~= labels_wire(labels) + (seq![n] + tail));
    assert((seq![n] + tail).skip(1) =~= tail);
    assert(scan(name, left) is Broken);
    lemma_scan(qs, name, left);
    assert(req.skip(12) =~= queries_wire(qs) + name);
}

/// Numbers stand high byte first, and the twelve bytes of a header are its six
/// numbers in order.
pub proof fn law_header_bytes(h: DnsHeader, bytes: Seq<u8>, at: int)
    ensures
        be16(bytes, at) == 256 * bytes[at] + bytes[at + 1],
        h.wire().len() == 12,
        256 * h.wire()[0] + h.wire()[1] == h.id,
        256 * h.wire()[2] + h.wire()[3] == h.flags,
        256 * h.wire()[4] + h.wire()[5] == h.qd_count,
        256 * h.wire()[6] + h.wire()[7] == h.an_count,
        256 * h.wire()[8] + h.wire()[9] == h.ns_count,
        256 * h.wire()[10] + h.wire()[11] == h.ar_count,
{
}

/// The four bytes of a question behind its name are two numbers, and what is
/// shorter is none.
pub proof fn law_question_bytes(bytes: Seq<u8>)
    ensures
        bytes.len() < 4 ==> question_at(bytes) is None && past_question(bytes) == bytes,
        bytes.len() >= 4 ==> {
            &&& question_at(bytes) is Some
            &&& question_at(bytes)->0.type_ == 256 * bytes[0] + bytes[1]
            &&& question_at(bytes)->0.class == 256 * bytes[2] + bytes[3]
            &&& past_question(bytes) == bytes.skip(4)
        },
{
}

/// The sixteen bytes of an answer are its six numbers in order.
pub proof fn law_answer_bytes(a: DnsAnswer)
    ensures
        a.wire().len() == 16,
        256 * a.wire()[0] + a.wire()[1] == a.ptr_offset,
        256 * a.wire()[2] + a.wire()[3] == a.type_,
        256 * a.wire()[4] + a.wire()[5] == a.class,
        0x100_0000 * a.wire()[6] + 0x1_0000 * a.wire()[7] + 256 * a.wire()[8] + a.wire()[9]
            == a.ttl,
        256 * a.wire()[10] + a.wire()[11] == a.addr_len,
        0x100_0000 * a.wire()[12] + 0x1_0000 * a.wire()[13] + 256 * a.wire()[14] + a.wire()[15]
            == a.ip_addr,
{
}

/// Writing over a stretch changes that stretch and nothing else.
pub proof fn law_overlay(base: Seq<u8>, at: int, bytes: Seq<u8>, i: int)
    requires
        0 <= at,
        at + bytes.len() <= base.len(),
        0 <= i < base.len(),
    ensures
        overlay(base, at, bytes).len() == base.len(),
        overlay(base, at, bytes).subrange(at, at + bytes.len()) == bytes,
        i < at || at + bytes.len() <= i ==> overlay(base, at, bytes)[i] == base[i],
{
    assert(overlay(base, at, bytes).subrange(at, at + bytes.len()) =~= bytes);
}

/// Where a name stops: at a label that does not fit the room it is too long, and
/// what was read of it stays; where the label takes up the last byte of the room,
/// or the message ends before the label does, it has no end.
pub proof fn law_name_stops(labels: Seq<Seq<u8>>, n: u8, tail: Seq<u8>, room: int)
    requires
        are_labels(labels),
        labels_wire(labels).len() < room,
        n > 0,
        n > tail.len() || labels_wire(labels).len() + 1 + n >= room,
    ensures
        ({
            let name = name_at(labels_wire(labels) + seq![n] + tail, room);
            &&& name.labels == labels
            &&& name.rest == tail
            &&& name.ending is Long <==> n <= tail.len() && labels_wire(labels).len() + 1 + n > room
            &&& name.ending is Broken <==> !(name.ending is Long)
        }),
{
    let after = seq![n] + tail;
    lemma_labels(labels, after, room);
    assert(labels_wire(labels) + seq![n] + tail =~= labels_wire(labels) + after);
    assert(after.skip(1) =~= tail);
    assert(labels + Seq::<Seq<u8>>::empty() =~= labels);
}

/// A message that ends where a label or the terminator would begin has no whole
/// name, and neither has one for which there is no room.
pub proof fn law_name_missing(labels: Seq<Seq<u8>>, tail: Seq<u8>, room: int)
    requires
        are_labels(labels),
        labels_wire(labels).len() < room,
    ensures
        name_at(labels_wire(labels), room).ending is Broken,
        name_at(labels_wire(labels), room).labels == labels,
        name_at(seq![0u8] + tail, 0).ending is Broken,
{
    let none = Seq::<u8>::empty();
    lemma_labels(labels, none, room);
    assert(labels_wire(labels) + none =~= labels_wire(labels));
    assert(labels + Seq::<Seq<u8>>::empty() =~= labels);
}

/// What came off the socket is a request exactly if something did.
pub proof fn law_is_request(received: Option<&[u8]>)
    ensures
        is_request(received) <==> received is Some && received->0@.len() >= 1,
{
}

/// A request is found fit to be handled if it is too short or too long, is no
/// standard query, or asks well-formed questions.
pub proof fn law_fit_to_be_handled(
    req: &[u8],
    room: usize,
    head: Seq<u8>,
    qs: Seq<Query>,
    more: Seq<u8>,
    r: bool,
)
    requires
        call_ensures(is_answerable, (req, room), r),
        req@.len() < 12 || req@.len() > room || req@[2] as int / 8 % 16 != 0 || {
            &&& head.len() == 12
            &&& 256 * head[4] + head[5] == qs.len()
            &&& are_queries(qs)
            &&& req@ == head + queries_wire(qs) + more
        },
    ensures
        r,
{
    law_heard(req@, room as int);
    if heard(req@, room as int) {
        lemma_parsed(head, qs, more);
        assert(complete(asked_of(qs)));
    }
}

/// One more question adds its answer behind the others and moves none of them, and
/// its name moves the pointers of those that follow. An answer points to the low
/// bits of its place; all else in it is the same wherever the name stands.
pub proof fn law_answer_added(list: Seq<Asked>, asked: Asked, ip: u32, src: int, other: int)
    ensures
        ({
            let more = answers(list.push(asked), ip);
            let n = answers(list, ip).len() as int;
            &&& more.len() >= n
            &&& more.take(n) == answers(list, ip)
            &&& more.skip(n) == answer_to(asked, ip, 12 + names_len(list))
            &&& names_len(list.push(asked)) == names_len(list) + asked.size
        }),
        asked.question is None || asked.question->0.type_ != 1 ==> answer_to(asked, ip, src).len()
            == 0,
        asked.question is Some && asked.question->0.type_ == 1 ==> {
            let a = answer_to(asked, ip, src);
            &&& a.len() == 16
            &&& 256 * a[0] + a[1] == 0xC000u16 | (src as u16)
            &&& a.skip(2) == answer_to(asked, ip, other).skip(2)
        },
{
    assert(list.push(asked).drop_last() =~= list);
    let more = answers(list.push(asked), ip);
    let n = answers(list, ip).len() as int;
    assert(more.take(n) =~= answers(list, ip));
    assert(more.skip(n) =~= answer_to(asked, ip, 12 + names_len(list)));
    if asked.question is Some && asked.question->0.type_ == 1 {
        assert(answer_to(asked, ip, src).skip(2) =~= answer_to(asked, ip, other).skip(2));
    }
}

} // verus!
