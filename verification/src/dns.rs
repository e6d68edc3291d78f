//! A DNS responder that answers every address query with one address, which is
//! what makes a captive portal of an access point.

use vstd::prelude::*;
use vstd::slice::slice_subrange;
use vstd::utf8::{decode_utf8, valid_utf8};

use crate::text::from_utf8;

verus! {

/// The longest reply.
pub const DNS_MAX_LEN: usize = 256;

/// The longest request that is taken off the socket whole.
pub const REQUEST_MAX_LEN: usize = 128;

/// The longest name, written with dots.
pub const NAME_MAX_LEN: usize = 128;

pub const OPCODE_MASK: u16 = 0x7800;

pub const QR_FLAG: u16 = 0x8000;

pub const QD_TYPE_A: u16 = 1;

pub const ANS_TTL_SEC: u32 = 60;

pub const HEADER_BYTES: usize = 12;

pub const QUESTION_BYTES: usize = 4;

pub const ANSWER_BYTES: usize = 16;

/// The number in bytes `at` and `at + 1`, high byte first.
pub open spec fn be16(bytes: Seq<u8>, at: int) -> u16 {
    (bytes[at] * 256 + bytes[at + 1]) as u16
}

/// A number in two bytes, high byte first.
pub open spec fn be16_bytes(v: u16) -> Seq<u8> {
    seq![(v / 256) as u8, (v % 256) as u8]
}

/// A number in four bytes, high byte first.
pub open spec fn be32_bytes(v: u32) -> Seq<u8> {
    be16_bytes((v / 0x1_0000) as u16) + be16_bytes((v % 0x1_0000) as u16)
}

/// `base` with `bytes` written over it from `at` on.
pub open spec fn overlay(base: Seq<u8>, at: int, bytes: Seq<u8>) -> Seq<u8> {
    Seq::new(
        base.len(),
        |i: int|
            if at <= i < at + bytes.len() {
                bytes[i - at]
            } else {
                base[i]
            },
    )
}

/// Takes a number off the front, high byte first.
pub fn read_u16(buf: &mut &[u8]) -> (v: u16)
    requires
        2 <= old(buf)@.len(),
    ensures
        v == be16(old(buf)@, 0),
        final(buf)@ == old(buf)@.skip(2),
{
    let whole: &[u8] = *buf;
    let v: u16 = whole[0] as u16 * 256 + whole[1] as u16;
    *buf = slice_subrange(whole, 2, whole.len());
    assert(buf@ =~= whole@.skip(2));
    v
}

/// Writes `src` into `dst` from `offset` on, and says how much that was.
pub fn write_bytes(dst: &mut [u8], offset: usize, src: &[u8]) -> (n: usize)
    requires
        offset + src@.len() <= old(dst)@.len(),
    ensures
        n == src@.len(),
        final(dst)@ == overlay(old(dst)@, offset as int, src@),
{
    let mut i: usize = 0;
    while i < src.len()
        invariant
            i <= src@.len(),
            offset + src@.len() <= old(dst)@.len(),
            dst@ == overlay(old(dst)@, offset as int, src@.take(i as int)),
        decreases src@.len() - i,
    {
        assert(dst@.len() == dst.len());
        dst[offset + i] = src[i];
        i += 1;
        assert(dst@ =~= overlay(old(dst)@, offset as int, src@.take(i as int)));
    }
    assert(src@.take(i as int) =~= src@);
    src.len()
}

/// The header of a message.
#[derive(Clone, Copy, Debug, PartialEq, Eq, Structural)]
pub struct DnsHeader {
    pub id: u16,
    pub flags: u16,
    pub qd_count: u16,
    pub an_count: u16,
    pub ns_count: u16,
    pub ar_count: u16,
}

/// The header that some bytes start with.
pub open spec fn header_at(bytes: Seq<u8>) -> DnsHeader {
    DnsHeader {
        id: be16(bytes, 0),
        flags: be16(bytes, 2),
        qd_count: be16(bytes, 4),
        an_count: be16(bytes, 6),
        ns_count: be16(bytes, 8),
        ar_count: be16(bytes, 10),
    }
}

impl DnsHeader {
    /// The header on the wire.
    pub open spec fn wire(self) -> Seq<u8> {
        be16_bytes(self.id) + be16_bytes(self.flags) + be16_bytes(self.qd_count) + be16_bytes(
            self.an_count,
        ) + be16_bytes(self.ns_count) + be16_bytes(self.ar_count)
    }

    /// Takes a header off the front, if all of it is there.
    pub fn from_bytes(buf: &mut &[u8]) -> (h: Option<DnsHeader>)
        ensures
            h is Some <==> HEADER_BYTES <= old(buf)@.len(),
            h is Some ==> h == Some(header_at(old(buf)@)) && final(buf)@ == old(buf)@.skip(
                HEADER_BYTES as int,
            ),
            h is None ==> final(buf)@ == old(buf)@,
    {
        if buf.len() < HEADER_BYTES {
            return None;
        }
        let ghost start = buf@;
        let id: u16 = read_u16(buf);
        let flags: u16 = read_u16(buf);
        let qd_count: u16 = read_u16(buf);
        let an_count: u16 = read_u16(buf);
        let ns_count: u16 = read_u16(buf);
        let ar_count: u16 = read_u16(buf);
        assert(buf@ =~= start.skip(12));
        Some(DnsHeader { id, flags, qd_count, an_count, ns_count, ar_count })
    }

    pub fn to_be_bytes(&self) -> (bytes: [u8; 12])
        ensures
            bytes@ == self.wire(),
    {
        let bytes: [u8; 12] = [
            (self.id / 256) as u8,
            (self.id % 256) as u8,
            (self.flags / 256) as u8,
            (self.flags % 256) as u8,
            (self.qd_count / 256) as u8,
            (self.qd_count % 256) as u8,
            (self.an_count / 256) as u8,
            (self.an_count % 256) as u8,
            (self.ns_count / 256) as u8,
            (self.ns_count % 256) as u8,
            (self.ar_count / 256) as u8,
            (self.ar_count % 256) as u8,
        ];
        assert(bytes@ =~= self.wire());
        bytes
    }
}

/// What a question asks for, behind its name.
#[derive(Clone, Copy, Debug, PartialEq, Eq, Structural)]
pub struct DnsQuestion {
    pub type_: u16,
    pub class: u16,
}

/// The question that some bytes start with.
pub open spec fn question_at(bytes: Seq<u8>) -> Option<DnsQuestion> {
    if QUESTION_BYTES <= bytes.len() {
        Some(DnsQuestion { type_: be16(bytes, 0), class: be16(bytes, 2) })
    } else {
        None
    }
}

/// What is left behind that question: everything, where it is not all there.
pub open spec fn past_question(bytes: Seq<u8>) -> Seq<u8> {
    if QUESTION_BYTES <= bytes.len() {
        bytes.skip(QUESTION_BYTES as int)
    } else {
        bytes
    }
}

impl DnsQuestion {
    /// Takes a question off the front, if all of it is there.
    pub fn from_bytes(buf: &mut &[u8]) -> (q: Option<DnsQuestion>)
        ensures
            q == question_at(old(buf)@),
            final(buf)@ == past_question(old(buf)@),
    {
        if buf.len() < QUESTION_BYTES {
            return None;
        }
        let ghost start = buf@;
        let type_: u16 = read_u16(buf);
        let class: u16 = read_u16(buf);
        assert(buf@ =~= start.skip(4));
        Some(DnsQuestion { type_, class })
    }
}

/// An answer that gives an address.
#[derive(Clone, Copy, Debug, PartialEq, Eq, Structural)]
pub struct DnsAnswer {
    /// Where in the message the name stands, marked as a pointer.
    pub ptr_offset: u16,
    pub type_: u16,
    pub class: u16,
    pub ttl: u32,
    pub addr_len: u16,
    pub ip_addr: u32,
}

impl DnsAnswer {
    /// The answer on the wire.
    pub open spec fn wire(self) -> Seq<u8> {
        be16_bytes(self.ptr_offset) + be16_bytes(self.type_) + be16_bytes(self.class) + be32_bytes(
            self.ttl,
        ) + be16_bytes(self.addr_len) + be32_bytes(self.ip_addr)
    }

    pub fn to_be_bytes(&self) -> (bytes: [u8; 16])
        ensures
            bytes@ == self.wire(),
    {
        let ttl_high: u16 = (self.ttl / 0x1_0000) as u16;
        let ttl_low: u16 = (self.ttl % 0x1_0000) as u16;
        let ip_high: u16 = (self.ip_addr / 0x1_0000) as u16;
        let ip_low: u16 = (self.ip_addr % 0x1_0000) as u16;
        let bytes: [u8; 16] = [
            (self.ptr_offset / 256) as u8,
            (self.ptr_offset % 256) as u8,
            (self.type_ / 256) as u8,
            (self.type_ % 256) as u8,
            (self.class / 256) as u8,
            (self.class % 256) as u8,
            (ttl_high / 256) as u8,
            (ttl_high % 256) as u8,
            (ttl_low / 256) as u8,
            (ttl_low % 256) as u8,
            (self.addr_len / 256) as u8,
            (self.addr_len % 256) as u8,
            (ip_high / 256) as u8,
            (ip_high % 256) as u8,
            (ip_low / 256) as u8,
            (ip_low % 256) as u8,
        ];
        assert(bytes@ =~= self.wire());
        bytes
    }
}

/// How a name ends.
pub enum Ending {
    /// With its terminator.
    Whole,
    /// At a label that no longer fits.
    Long,
    /// Nowhere: the message stops before the terminator, or a label fills the
    /// last byte of the room so that its dot has none.
    Broken,
}

/// A name as it stands in a message.
pub struct Name {
    /// Its labels, up to where it ends.
    pub labels: Seq<Seq<u8>>,
    /// What is left of the message behind the last byte that was looked at.
    pub rest: Seq<u8>,
    pub ending: Ending,
}

/// The name that some bytes start with, for a buffer with `room` bytes left.
pub open spec fn name_at(req: Seq<u8>, room: int) -> Name
    decreases req.len(),
{
    if req.len() == 0 {
        Name { labels: Seq::empty(), rest: req, ending: Ending::Broken }
    } else {
        let n = req[0] as int;
        let rest = req.skip(1);
        if n == 0 {
            Name {
                labels: Seq::empty(),
                rest,
                ending: if room >= 1 {
                    Ending::Whole
                } else {
                    Ending::Broken
                },
            }
        } else if n > rest.len() {
            Name { labels: Seq::empty(), rest, ending: Ending::Broken }
        } else if room < 1 + n {
            Name { labels: Seq::empty(), rest, ending: Ending::Long }
        } else if room == 1 + n {
            Name { labels: Seq::empty(), rest, ending: Ending::Broken }
        } else {
            let tail = name_at(rest.skip(n), room - 1 - n);
            Name { labels: seq![rest.take(n)] + tail.labels, ..tail }
        }
    }
}

/// Labels with a dot behind each.
pub open spec fn dotted(labels: Seq<Seq<u8>>) -> Seq<u8>
    decreases labels.len(),
{
    if labels.len() == 0 {
        Seq::empty()
    } else {
        labels[0] + seq![0x2Eu8] + dotted(labels.skip(1))
    }
}

/// How many bytes a whole name takes up in a message.
pub open spec fn name_size(labels: Seq<Seq<u8>>) -> int {
    dotted(labels).len() + 1int
}

pub(crate) proof fn lemma_dotted_push(labels: Seq<Seq<u8>>, label: Seq<u8>)
    ensures
        dotted(labels.push(label)) == dotted(labels) + label + seq![0x2Eu8],
    decreases labels.len(),
{
    if labels.len() == 0 {
        assert(labels.push(label).skip(1) =~= Seq::empty());
        reveal_with_fuel(dotted, 2);
        assert(dotted(labels.push(label)) =~= dotted(labels) + label + seq![0x2Eu8]);
    } else {
        assert(labels.push(label).skip(1) =~= labels.skip(1).push(label));
        lemma_dotted_push(labels.skip(1), label);
        assert(dotted(labels.push(label)) =~= dotted(labels) + label + seq![0x2Eu8]);
    }
}

/// A whole name fits its room, and takes up in the message as many bytes as in
/// the buffer.
pub proof fn law_name_size(req: Seq<u8>, room: int)
    requires
        name_at(req, room).ending is Whole,
    ensures
        name_size(name_at(req, room).labels) <= room,
        name_at(req, room).rest == req.skip(name_size(name_at(req, room).labels)),
        name_size(name_at(req, room).labels) <= req.len(),
    decreases req.len(),
{
    let n = req[0] as int;
    let rest = req.skip(1);
    let name = name_at(req, room);
    if n == 0 {
        assert(dotted(name.labels) =~= Seq::empty());
    } else {
        let tail = name_at(rest.skip(n), room - 1 - n);
        law_name_size(rest.skip(n), room - 1 - n);
        assert(name.labels.skip(1) =~= tail.labels);
        assert(name.labels[0] == rest.take(n));
        assert(name_size(name.labels) == 1 + n + name_size(tail.labels));
        assert(rest.skip(n).skip(name_size(tail.labels)) =~= req.skip(name_size(name.labels)));
    }
}

/// Takes a name off the front and writes it into `dst` with dots: from the
/// second byte on, a dot behind each label. Says how many bytes the name took
/// up, and hands out that many bytes of `dst` as text. `None` where a label does
/// not fit or the text is not UTF-8.
pub fn parse_dns_name<'a>(req: &mut &[u8], dst: &'a mut [u8]) -> (r: Option<(usize, &'a str)>)
    requires
        !(name_at(old(req)@, old(dst)@.len() as int).ending is Broken),
    ensures
        ({
            let name = name_at(old(req)@, old(dst)@.len() as int);
            let size = name_size(name.labels);
            let text = final(dst)@.take(size);
            &&& final(req)@ == name.rest
            &&& final(dst)@ == overlay(old(dst)@, 1, dotted(name.labels))
            &&& r is Some <==> name.ending is Whole && valid_utf8(text)
            &&& r matches Some((n, s)) ==> n == size <= old(dst)@.len() && s@ == decode_utf8(text)
        }),
{
    let ghost whole = name_at(req@, dst@.len() as int);
    let ghost mut labels: Seq<Seq<u8>> = Seq::empty();
    let mut len: usize = 0;
    assert(dst@ =~= overlay(old(dst)@, 1, dotted(labels)));
    assert(labels + whole.labels =~= whole.labels);
    loop
        invariant_except_break
            whole == name_at(old(req)@, old(dst)@.len() as int),
            dst@ == overlay(old(dst)@, 1, dotted(labels)),
            len == dotted(labels).len(),
            len <= old(dst)@.len(),
            !(name_at(req@, old(dst)@.len() - len).ending is Broken),
            whole.rest == name_at(req@, old(dst)@.len() - len).rest,
            whole.ending == name_at(req@, old(dst)@.len() - len).ending,
            whole.labels == labels + name_at(req@, old(dst)@.len() - len).labels,
        ensures
            whole == name_at(old(req)@, old(dst)@.len() as int),
            whole.ending is Whole,
            whole.labels == labels,
            dst@ == overlay(old(dst)@, 1, dotted(labels)),
            len == name_size(labels),
            len <= old(dst)@.len(),
            req@ == whole.rest,
        decreases req@.len(),
    {
        assert(dst@.len() == dst.len());
        let here: &[u8] = *req;
        let sub_name_len: usize = here[0] as usize;
        let rest: &[u8] = slice_subrange(here, 1, here.len());
        assert(rest@ =~= here@.skip(1));
        *req = rest;
        if sub_name_len == 0 {
            len = len + 1;
            assert(labels + Seq::empty() =~= labels);
            break ;
        }
        if dst.len() - len < 1 + sub_name_len {
            assert(labels + Seq::empty() =~= labels);
            return None;
        }
        let label: &[u8] = slice_subrange(rest, 0, sub_name_len);
        assert(label@ =~= rest@.take(sub_name_len as int));
        proof {
            lemma_dotted_push(labels, label@);
        }
        write_bytes(dst, len + 1, label);
        assert(dst@.len() == dst.len());
        dst[len + 1 + sub_name_len] = 0x2E;
        *req = slice_subrange(rest, sub_name_len, rest.len());
        assert(req@ =~= rest@.skip(sub_name_len as int));
        proof {
            let tail = name_at(req@, old(dst)@.len() - len - 1 - sub_name_len);
            assert(labels.push(label@) + tail.labels =~= labels + (seq![label@] + tail.labels));
            labels = labels.push(label@);
        }
        len = len + 1 + sub_name_len;
        assert(dst@ =~= overlay(old(dst)@, 1, dotted(labels)));
    }
    let written: &'a [u8] = dst;
    let text: &'a [u8] = slice_subrange(written, 0, len);
    assert(text@ =~= written@.take(len as int));
    match from_utf8(text) {
        Some(s) => Some((len, s)),
        None => None,
    }
}

/// What a name reads as in a blank buffer.
pub open spec fn name_text(labels: Seq<Seq<u8>>) -> Seq<u8> {
    seq![0u8] + dotted(labels)
}

/// One question of a request.
pub struct Asked {
    /// How many bytes its name takes up.
    pub size: int,
    /// What it asks for, if all of that is there.
    pub question: Option<DnsQuestion>,
}

/// The questions of a request.
pub enum Scan {
    /// All of them have names.
    Parsed(Seq<Asked>),
    /// A name is too long, or no text.
    Refused,
    /// A name does not end.
    Broken,
}

/// `list`, and behind it what is scanned later.
pub open spec fn and_then_scan(list: Seq<Asked>, later: Scan) -> Scan {
    match later {
        Scan::Parsed(more) => Scan::Parsed(list + more),
        other => other,
    }
}

/// The first `n` questions.
pub open spec fn scan(req: Seq<u8>, n: nat) -> Scan
    decreases n,
{
    if n == 0 {
        Scan::Parsed(Seq::empty())
    } else {
        let name = name_at(req, NAME_MAX_LEN as int);
        match name.ending {
            Ending::Broken => Scan::Broken,
            Ending::Long => Scan::Refused,
            Ending::Whole => if !valid_utf8(name_text(name.labels)) {
                Scan::Refused
            } else {
                and_then_scan(
                    seq![
                        Asked { size: name_size(name.labels), question: question_at(name.rest) },
                    ],
                    scan(past_question(name.rest), (n - 1) as nat),
                )
            },
        }
    }
}

/// How many bytes the questions take up, as a request has to hold them.
pub open spec fn questions_len(list: Seq<Asked>) -> int
    decreases list.len(),
{
    if list.len() == 0 {
        0
    } else {
        questions_len(list.drop_last()) + list.last().size + QUESTION_BYTES
    }
}

/// How many bytes the names alone take up.
pub open spec fn names_len(list: Seq<Asked>) -> int
    decreases list.len(),
{
    if list.len() == 0 {
        0
    } else {
        names_len(list.drop_last()) + list.last().size
    }
}

/// Whether every question is there to its end.
pub open spec fn complete(list: Seq<Asked>) -> bool {
    forall|i: int| 0 <= i < list.len() ==> (#[trigger] list[i]).question is Some
}

/// The answer to a question whose name is taken to stand at `src`: the address,
/// if one was asked for.
pub open spec fn answer_to(asked: Asked, ip: u32, src: int) -> Seq<u8> {
    match asked.question {
        Some(q) => if q.type_ == QD_TYPE_A {
            DnsAnswer {
                ptr_offset: 0xC000u16 | (src as u16),
                type_: q.type_,
                class: q.class,
                ttl: ANS_TTL_SEC,
                addr_len: 4,
                ip_addr: ip,
            }.wire()
        } else {
            Seq::empty()
        },
        None => Seq::empty(),
    }
}

/// The answers, where the first name is taken to stand behind the header and
/// each further one directly behind the name before it.
pub open spec fn answers(list: Seq<Asked>, ip: u32) -> Seq<u8>
    decreases list.len(),
{
    if list.len() == 0 {
        Seq::empty()
    } else {
        answers(list.drop_last(), ip) + answer_to(
            list.last(),
            ip,
            HEADER_BYTES + names_len(list.drop_last()),
        )
    }
}

/// The header of the reply to a header.
pub open spec fn reply_header(h: DnsHeader) -> DnsHeader {
    DnsHeader {
        id: h.id,
        flags: h.flags | QR_FLAG,
        qd_count: h.qd_count,
        an_count: h.qd_count,
        ns_count: 0,
        ar_count: 0,
    }
}

/// Whether a request is one that a reply is begun for: it fits, it has a
/// header, and it is a standard query.
pub open spec fn heard(req: Seq<u8>, room: int) -> bool {
    &&& req.len() <= room
    &&& HEADER_BYTES <= req.len()
    &&& header_at(req).flags & OPCODE_MASK == 0
}

/// The questions of a request with a header.
pub open spec fn scan_of(req: Seq<u8>) -> Scan {
    scan(req.skip(HEADER_BYTES as int), header_at(req).qd_count as nat)
}

/// How long a reply to these questions is.
pub open spec fn reply_len(list: Seq<Asked>) -> int {
    HEADER_BYTES + questions_len(list) + list.len() * ANSWER_BYTES
}

/// Whether a request can be handled at all. Left out are a name that does not
/// end, and a question that is cut short while the reply would fit.
pub open spec fn answerable(req: Seq<u8>, room: int) -> bool {
    heard(req, room) ==> match scan_of(req) {
        Scan::Parsed(list) => reply_len(list) <= room ==> complete(list),
        Scan::Refused => true,
        Scan::Broken => false,
    }
}

/// Whether a request gets a reply.
pub open spec fn replied(req: Seq<u8>, room: int) -> bool {
    heard(req, room) && match scan_of(req) {
        Scan::Parsed(list) => reply_len(list) <= room,
        _ => false,
    }
}

/// The buffer once a reply is in it. An answer that is not given leaves what
/// stood in its place.
pub open spec fn reply_in(req: Seq<u8>, list: Seq<Asked>, ip: u32, buf: Seq<u8>) -> Seq<u8> {
    let header = overlay(buf, 0, reply_header(header_at(req)).wire());
    let asked = overlay(
        header,
        HEADER_BYTES as int,
        req.subrange(HEADER_BYTES as int, HEADER_BYTES + questions_len(list)),
    );
    overlay(asked, HEADER_BYTES + questions_len(list), answers(list, ip))
}

fn take_name(req: &mut &[u8]) -> (r: Option<usize>)
    requires
        !(name_at(old(req)@, NAME_MAX_LEN as int).ending is Broken),
    ensures
        ({
            let name = name_at(old(req)@, NAME_MAX_LEN as int);
            &&& final(req)@ == name.rest
            &&& r is Some <==> name.ending is Whole && valid_utf8(name_text(name.labels))
            &&& r matches Some(n) ==> n == name_size(name.labels) && n <= NAME_MAX_LEN
        }),
{
    let mut buf: [u8; 128] = [0; 128];
    let ghost name = name_at(req@, NAME_MAX_LEN as int);
    let ghost start = buf@;
    let ghost start_req = req@;
    let parsed = parse_dns_name(req, &mut buf);
    proof {
        if name.ending is Whole {
            law_name_size(start_req, NAME_MAX_LEN as int);
            assert(overlay(start, 1, dotted(name.labels)).take(name_size(name.labels))
                =~= name_text(name.labels));
        }
    }
    match parsed {
        Some((size, _)) => Some(size),
        None => None,
    }
}

pub(crate) proof fn lemma_scan_step(done: Seq<Asked>, asked: Asked, later: Scan)
    ensures
        and_then_scan(done, and_then_scan(seq![asked], later)) == and_then_scan(
            done.push(asked),
            later,
        ),
        questions_len(done.push(asked)) == questions_len(done) + asked.size + QUESTION_BYTES,
        names_len(done.push(asked)) == names_len(done) + asked.size,
{
    assert(done.push(asked).drop_last() =~= done);
    if let Scan::Parsed(more) = later {
        assert(done + (seq![asked] + more) =~= done.push(asked) + more);
    }
}

pub(crate) proof fn lemma_len_front(asked: Asked, list: Seq<Asked>)
    ensures
        questions_len(seq![asked] + list) == asked.size + QUESTION_BYTES + questions_len(list),
    decreases list.len(),
{
    let all = seq![asked] + list;
    if list.len() == 0 {
        assert(all.drop_last() =~= Seq::empty());
        assert(questions_len(all.drop_last()) == 0);
    } else {
        assert(all.drop_last() =~= seq![asked] + list.drop_last());
        lemma_len_front(asked, list.drop_last());
    }
}

/// Scanning finds as many questions as it looks for, and if all are there to
/// their ends, they take up no more than the request has.
pub proof fn law_scan_len(req: Seq<u8>, n: nat)
    requires
        scan(req, n) is Parsed,
    ensures
        scan(req, n)->Parsed_0.len() == n,
        complete(scan(req, n)->Parsed_0) ==> questions_len(scan(req, n)->Parsed_0) <= req.len(),
        forall|i: int|
            0 <= i < n ==> 1 <= (#[trigger] scan(req, n)->Parsed_0[i]).size <= NAME_MAX_LEN,
    decreases n,
{
    if n > 0 {
        let name = name_at(req, NAME_MAX_LEN as int);
        law_name_size(req, NAME_MAX_LEN as int);
        let asked = Asked { size: name_size(name.labels), question: question_at(name.rest) };
        let rest = past_question(name.rest);
        law_scan_len(rest, (n - 1) as nat);
        let more = scan(rest, (n - 1) as nat)->Parsed_0;
        let list = scan(req, n)->Parsed_0;
        assert(list == seq![asked] + more);
        lemma_len_front(asked, more);
        assert forall|i: int| 0 <= i < n implies 1 <= (#[trigger] list[i]).size
            <= NAME_MAX_LEN by {
            if i > 0 {
                assert(list[i] == more[i - 1]);
            }
        }
        if complete(list) {
            assert(list[0].question is Some);
            assert forall|i: int| 0 <= i < more.len() implies (#[trigger] more[i]).question
                is Some by {
                assert(list[i + 1].question is Some);
            }
        }
    }
}

/// Whether the name at the front does not end.
fn name_is_broken(req: &[u8]) -> (r: bool)
    ensures
        r == (name_at(req@, NAME_MAX_LEN as int).ending is Broken),
{
    let mut at: usize = 0;
    let mut room: usize = NAME_MAX_LEN;
    assert(req@.skip(0) =~= req@);
    while at < req.len()
        invariant
            at <= req@.len(),
            room <= NAME_MAX_LEN,
            name_at(req@, NAME_MAX_LEN as int).ending == name_at(
                req@.skip(at as int),
                room as int,
            ).ending,
        decreases req@.len() - at,
    {
        let n: usize = req[at] as usize;
        let ghost here = req@.skip(at as int);
        assert(here.skip(1) =~= req@.skip(at + 1));
        if n == 0 {
            return room == 0;
        }
        if n > req.len() - at - 1 {
            return true;
        }
        if room < 1 + n {
            return false;
        }
        if room == 1 + n {
            return true;
        }
        assert(here.skip(1).skip(n as int) =~= req@.skip(at + 1 + n));
        at = at + 1 + n;
        room = room - 1 - n;
    }
    true
}

/// The questions of a request, measured.
enum Survey {
    Broken,
    Refused,
    Parsed { total: usize, complete: bool },
}

fn survey(req: &[u8], n: u16) -> (r: Survey)
    ensures
        match scan(req@, n as nat) {
            Scan::Parsed(list) => r matches Survey::Parsed { total, complete: whole } && total
                == questions_len(list) && whole == complete(list) && total <= n * 132,
            Scan::Refused => r is Refused,
            Scan::Broken => r is Broken,
        },
{
    let mut rest: &[u8] = req;
    let mut total: usize = 0;
    let mut whole: bool = true;
    let mut i: u16 = 0;
    let ghost mut done: Seq<Asked> = Seq::empty();
    proof {
        if let Scan::Parsed(list) = scan(req@, n as nat) {
            assert(done + list =~= list);
        }
    }
    while i < n
        invariant
            i <= n,
            scan(req@, n as nat) == and_then_scan(done, scan(rest@, (n - i) as nat)),
            total == questions_len(done),
            total <= i * 132,
            whole == complete(done),
        decreases n - i,
    {
        if name_is_broken(rest) {
            return Survey::Broken;
        }
        let size: usize = match take_name(&mut rest) {
            Some(size) => size,
            None => {
                return Survey::Refused;
            },
        };
        let question: Option<DnsQuestion> = DnsQuestion::from_bytes(&mut rest);
        total = total + (size + QUESTION_BYTES);
        proof {
            let asked = Asked { size: size as int, question };
            lemma_scan_step(done, asked, scan(rest@, (n - i - 1) as nat));
            let grown = done.push(asked);
            assert(grown[done.len() as int] == asked);
            if complete(grown) {
                assert forall|k: int| 0 <= k < done.len() implies (#[trigger] done[k]).question
                    is Some by {
                    assert(grown[k].question is Some);
                }
            }
            done = grown;
        }
        if question.is_none() {
            whole = false;
        }
        i += 1;
    }
    assert(done + Seq::empty() =~= done);
    Survey::Parsed { total, complete: whole }
}

/// Whether [`build_dns_response`] can handle a request, with `room` bytes for
/// the reply.
pub fn is_answerable(req: &[u8], room: usize) -> (r: bool)
    ensures
        r == answerable(req@, room as int),
{
    if req.len() > room {
        return true;
    }
    let mut rest: &[u8] = req;
    let header: DnsHeader = match DnsHeader::from_bytes(&mut rest) {
        Some(header) => header,
        None => {
            return true;
        },
    };
    if header.flags & OPCODE_MASK != 0 {
        return true;
    }
    proof {
        if scan_of(req@) is Parsed {
            law_scan_len(rest@, header.qd_count as nat);
        }
    }
    match survey(rest, header.qd_count) {
        Survey::Broken => false,
        Survey::Refused => true,
        Survey::Parsed { total, complete } => {
            complete || HEADER_BYTES + total + header.qd_count as usize * ANSWER_BYTES > room
        },
    }
}

/// Replies to a query for each of its questions that asks for an address: `ip`.
/// The reply is built in `buf`, of which the part in use is handed out. `None`
/// where there is nothing to reply.
pub fn build_dns_response<'a>(req: &[u8], ip: u32, buf: &'a mut [u8]) -> (r: Option<&'a [u8]>)
    requires
        answerable(req@, old(buf)@.len() as int),
    ensures
        r is Some <==> replied(req@, old(buf)@.len() as int),
        r matches Some(reply) ==> {
            let list = scan_of(req@)->Parsed_0;
            &&& final(buf)@ == reply_in(req@, list, ip, old(buf)@)
            &&& reply@ == final(buf)@.take(reply_len(list))
        },
        r is None ==> final(buf)@ == if heard(req@, old(buf)@.len() as int) {
            overlay(old(buf)@, 0, reply_header(header_at(req@)).wire())
        } else {
            old(buf)@
        },
{
    if req.len() > buf.len() {
        return None;
    }
    let mut rest: &[u8] = req;
    let header: DnsHeader = match DnsHeader::from_bytes(&mut rest) {
        Some(header) => header,
        None => {
            return None;
        },
    };
    if header.flags & OPCODE_MASK != 0 {
        return None;
    }
    let response_header = DnsHeader {
        id: header.id,
        flags: header.flags | QR_FLAG,
        qd_count: header.qd_count,
        an_count: header.qd_count,
        ns_count: 0,
        ar_count: 0,
    };
    let header_bytes: [u8; 12] = response_header.to_be_bytes();
    write_bytes(buf, 0, &header_bytes);

    let resp_len: usize = match survey(rest, header.qd_count) {
        Survey::Parsed { total, .. } => total,
        _ => {
            return None;
        },
    };
    let ghost list = scan_of(req@)->Parsed_0;
    proof {
        law_scan_len(rest@, header.qd_count as nat);
    }
    let reply_len: usize = HEADER_BYTES + resp_len + header.qd_count as usize * ANSWER_BYTES;
    if reply_len > buf.len() {
        return None;
    }
    let questions: &[u8] = slice_subrange(rest, 0, resp_len);
    assert(questions@ =~= req@.subrange(12, 12 + questions_len(list)));
    write_bytes(buf, HEADER_BYTES, questions);
    let ghost asked_in = buf@;

    let mut src_idx: usize = HEADER_BYTES;
    let mut dst_idx: usize = HEADER_BYTES + resp_len;
    let mut i: u16 = 0;
    let ghost mut done: Seq<Asked> = Seq::empty();
    assert(done + list =~= list);
    assert(buf@ =~= overlay(asked_in, 12 + questions_len(list), answers(done, ip)));
    while i < header.qd_count
        invariant
            i <= header.qd_count,
            i == done.len(),
            list.len() == header.qd_count,
            complete(list),
            forall|k: int| 0 <= k < list.len() ==> 1 <= (#[trigger] list[k]).size <= NAME_MAX_LEN,
            scan(rest@, (header.qd_count - i) as nat) is Parsed,
            list == done + scan(rest@, (header.qd_count - i) as nat)->Parsed_0,
            src_idx == 12 + names_len(done),
            dst_idx == 12 + questions_len(list) + answers(done, ip).len(),
            dst_idx <= 12 + questions_len(list) + 16 * i,
            reply_len == 12 + questions_len(list) + 16 * header.qd_count,
            reply_len <= asked_in.len(),
            names_len(done) <= 128 * i,
            buf@ == overlay(asked_in, 12 + questions_len(list), answers(done, ip)),
        decreases header.qd_count - i,
    {
        let size: usize = match take_name(&mut rest) {
            Some(size) => size,
            None => {
                return None;
            },
        };
        let ghost asked = Asked { size: size as int, question: question_at(rest@) };
        let question: DnsQuestion = match DnsQuestion::from_bytes(&mut rest) {
            Some(question) => question,
            None => {
                assert(list[i as int] == asked);
                return None;
            },
        };
        proof {
            lemma_scan_step(done, asked, scan(rest@, (header.qd_count - i - 1) as nat));
            assert(done.push(asked).drop_last() =~= done);
            assert(list[i as int] == asked);
        }
        if question.type_ == QD_TYPE_A {
            let answer = DnsAnswer {
                ptr_offset: 0xC000 | src_idx as u16,
                type_: question.type_,
                class: question.class,
                ttl: ANS_TTL_SEC,
                addr_len: 4,
                ip_addr: ip,
            };
            let bytes: [u8; 16] = answer.to_be_bytes();
            assert(bytes@ == answer_to(asked, ip, src_idx as int));
            let n: usize = write_bytes(buf, dst_idx, &bytes);
            dst_idx = dst_idx + n;
            assert(buf@ =~= overlay(
                asked_in,
                12 + questions_len(list),
                answers(done.push(asked), ip),
            ));
        } else {
            assert(answers(done.push(asked), ip) =~= answers(done, ip));
        }
        proof {
            done = done.push(asked);
        }
        src_idx = src_idx + size;
        i += 1;
    }
    assert(done =~= list);
    let written: &'a [u8] = buf;
    let reply: &'a [u8] = slice_subrange(written, 0, reply_len);
    assert(reply@ =~= written@.take(reply_len as int));
    Some(reply)
}

/// Whether there is a request in what came off the socket.
pub open spec fn is_request(received: Option<&[u8]>) -> bool {
    received matches Some(req) && req@.len() > 0
}

/// Decides what is sent back for what came off the socket: nothing where receiving
/// failed or the datagram is empty, else what [`build_dns_response`] makes of it.
pub fn serve<'a>(received: Option<&[u8]>, ip: u32, buf: &'a mut [u8]) -> (r: Option<&'a [u8]>)
    requires
        is_request(received) ==> answerable(received->0@, old(buf)@.len() as int),
    ensures
        r is Some <==> is_request(received) && replied(received->0@, old(buf)@.len() as int),
        r matches Some(reply) ==> {
            let req = received->0@;
            let list = scan_of(req)->Parsed_0;
            &&& final(buf)@ == reply_in(req, list, ip, old(buf)@)
            &&& reply@ == final(buf)@.take(reply_len(list))
        },
        r is None ==> final(buf)@ == if is_request(received) && heard(
            received->0@,
            old(buf)@.len() as int,
        ) {
            overlay(old(buf)@, 0, reply_header(header_at(received->0@)).wire())
        } else {
            old(buf)@
        },
{
    match received {
        Some(req) => {
            if req.len() == 0 {
                None
            } else {
                build_dns_response(req, ip, buf)
            }
        },
        None => None,
    }
}

// Laws.

/// A header reads back as it was written.
pub proof fn law_header_round_trip(h: DnsHeader)
    ensures
        h.wire().len() == HEADER_BYTES,
        header_at(h.wire()) == h,
{
}

/// A reply has the id of its query and is marked as a reply; the other flags are
/// those of the query. It promises one answer to each question, and nothing else.
pub proof fn law_reply_header(h: DnsHeader)
    ensures
        reply_header(h).id == h.id,
        reply_header(h).flags & QR_FLAG == QR_FLAG,
        reply_header(h).flags & !QR_FLAG == h.flags & !QR_FLAG,
        reply_header(h).qd_count == h.qd_count,
        reply_header(h).an_count == h.qd_count,
        reply_header(h).ns_count == 0,
        reply_header(h).ar_count == 0,
{
    let f = h.flags;
    assert((f | 0x8000u16) & 0x8000u16 == 0x8000u16) by (bit_vector);
    assert((f | 0x8000u16) & !0x8000u16 == f & !0x8000u16) by (bit_vector);
}

/// A reply repeats the questions of its query behind its header.
pub proof fn law_reply_echoes(req: Seq<u8>, ip: u32, buf: Seq<u8>)
    requires
        replied(req, buf.len() as int),
        answerable(req, buf.len() as int),
    ensures
        ({
            let list = scan_of(req)->Parsed_0;
            let reply = reply_in(req, list, ip, buf).take(reply_len(list));
            let end = HEADER_BYTES + questions_len(list);
            &&& reply.len() == reply_len(list) <= buf.len()
            &&& header_at(reply) == reply_header(header_at(req))
            &&& HEADER_BYTES <= end <= req.len()
            &&& reply.subrange(HEADER_BYTES as int, end) == req.subrange(HEADER_BYTES as int, end)
        }),
{
    let list = scan_of(req)->Parsed_0;
    let n = header_at(req).qd_count as nat;
    law_scan_len(req.skip(HEADER_BYTES as int), n);
    lemma_len_nonnegative(list);
    let reply = reply_in(req, list, ip, buf).take(reply_len(list));
    let end = HEADER_BYTES + questions_len(list);
    let wire = reply_header(header_at(req)).wire();
    law_header_round_trip(reply_header(header_at(req)));
    assert(reply.take(12) =~= wire);
    assert forall|i: int| 0 <= i < 12 implies reply[i] == wire[i] by {
        assert(reply.take(12)[i] == wire[i]);
    }
    assert(reply.subrange(HEADER_BYTES as int, end) =~= req.subrange(HEADER_BYTES as int, end));
}

proof fn lemma_len_nonnegative(list: Seq<Asked>)
    requires
        forall|i: int| 0 <= i < list.len() ==> 1 <= (#[trigger] list[i]).size,
    ensures
        questions_len(list) >= 0,
    decreases list.len(),
{
    if list.len() > 0 {
        let front = list.drop_last();
        assert forall|i: int| 0 <= i < front.len() implies 1 <= (#[trigger] front[i]).size by {
            assert(front[i] == list[i]);
        }
        lemma_len_nonnegative(front);
    }
}

/// Where every question asks for an address, every promised answer is given.
pub proof fn law_all_answered(list: Seq<Asked>, ip: u32)
    requires
        forall|i: int|
            0 <= i < list.len() ==> {
                &&& (#[trigger] list[i]).question is Some
                &&& list[i].question->0.type_ == QD_TYPE_A
            },
    ensures
        answers(list, ip).len() == list.len() * ANSWER_BYTES,
    decreases list.len(),
{
    if list.len() > 0 {
        let front = list.drop_last();
        assert forall|i: int| 0 <= i < front.len() implies (#[trigger] front[i]).question is Some
            && front[i].question->0.type_ == QD_TYPE_A by {
            assert(front[i] == list[i]);
        }
        law_all_answered(front, ip);
        assert(list.last() == list[list.len() - 1]);
    }
}

/// The reply to a single question for an address ends with that address, under a
/// pointer to the name of the question.
pub proof fn law_single_answer(req: Seq<u8>, ip: u32, buf: Seq<u8>, class: u16)
    requires
        replied(req, buf.len() as int),
        answerable(req, buf.len() as int),
        header_at(req).qd_count == 1,
        scan_of(req)->Parsed_0[0].question == Some(DnsQuestion { type_: QD_TYPE_A, class }),
    ensures
        ({
            let list = scan_of(req)->Parsed_0;
            let reply = reply_in(req, list, ip, buf).take(reply_len(list));
            let end = HEADER_BYTES + questions_len(list);
            reply.skip(end) == (DnsAnswer {
                ptr_offset: 0xC00C,
                type_: QD_TYPE_A,
                class,
                ttl: ANS_TTL_SEC,
                addr_len: 4,
                ip_addr: ip,
            }).wire()
        }),
{
    let list = scan_of(req)->Parsed_0;
    law_scan_len(req.skip(HEADER_BYTES as int), 1);
    law_reply_echoes(req, ip, buf);
    assert(list.drop_last() =~= Seq::empty());
    assert(0xC000u16 | 12u16 == 0xC00Cu16) by (bit_vector);
    assert(names_len(list.drop_last()) == 0);
    let answer = answer_to(list[0], ip, 12);
    assert(answers(list.drop_last(), ip) =~= Seq::empty());
    assert(list.last() == list[0]);
    assert(answers(list, ip) =~= answer);
    let reply = reply_in(req, list, ip, buf).take(reply_len(list));
    assert(reply.skip(HEADER_BYTES + questions_len(list)) =~= answer);
}

} // verus!
