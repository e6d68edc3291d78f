use magic_paper::dns::{
    build_dns_response, is_answerable, parse_dns_name, read_u16, serve, write_bytes, DnsAnswer,
    DnsHeader, DnsQuestion,
};

const IP: u32 = 0xC0A8_4701;

fn header(id: u16, flags: u16, questions: u16) -> Vec<u8> {
    DnsHeader {
        id,
        flags,
        qd_count: questions,
        an_count: 3,
        ns_count: 4,
        ar_count: 5,
    }
    .to_be_bytes()
    .to_vec()
}

fn name(labels: &[&[u8]]) -> Vec<u8> {
    let mut bytes = Vec::new();
    for label in labels {
        bytes.push(label.len() as u8);
        bytes.extend_from_slice(label);
    }
    bytes.push(0);
    bytes
}

fn question(labels: &[&[u8]], type_: u16) -> Vec<u8> {
    let mut bytes = name(labels);
    bytes.extend_from_slice(&type_.to_be_bytes());
    bytes.extend_from_slice(&[0, 1]);
    bytes
}

fn reply(req: &[u8], room: usize) -> Option<Vec<u8>> {
    let mut buf = vec![0u8; room];
    assert!(is_answerable(req, room));
    build_dns_response(req, IP, &mut buf).map(|r| r.to_vec())
}

#[test]
fn numbers_are_big_endian() {
    let mut rest: &[u8] = &[0x12, 0x34, 0x56];
    assert_eq!(read_u16(&mut rest), 0x1234);
    assert_eq!(rest, &[0x56]);
}

#[test]
fn bytes_are_written_in_place() {
    let mut dst = [1u8, 2, 3, 4, 5];
    assert_eq!(write_bytes(&mut dst, 2, &[9, 8]), 2);
    assert_eq!(dst, [1, 2, 9, 8, 5]);
    assert_eq!(write_bytes(&mut dst, 5, &[]), 0);
}

#[test]
fn headers_read_back() {
    let h = DnsHeader {
        id: 0xABCD,
        flags: 0x0100,
        qd_count: 1,
        an_count: 2,
        ns_count: 3,
        ar_count: 0xFFFF,
    };
    let bytes = h.to_be_bytes();
    assert_eq!(bytes, [0xAB, 0xCD, 1, 0, 0, 1, 0, 2, 0, 3, 0xFF, 0xFF]);
    let mut rest: &[u8] = &bytes;
    assert_eq!(DnsHeader::from_bytes(&mut rest), Some(h));
    assert!(rest.is_empty());
    let mut short: &[u8] = &bytes[..11];
    assert_eq!(DnsHeader::from_bytes(&mut short), None);
    assert_eq!(short.len(), 11);
}

#[test]
fn questions_and_answers_on_the_wire() {
    let mut rest: &[u8] = &[0, 28, 0, 1, 7];
    assert_eq!(DnsQuestion::from_bytes(&mut rest), Some(DnsQuestion { type_: 28, class: 1 }));
    assert_eq!(rest, &[7]);
    assert_eq!(DnsQuestion::from_bytes(&mut rest), None);
    assert_eq!(rest, &[7]);
    let answer = DnsAnswer {
        ptr_offset: 0xC00C,
        type_: 1,
        class: 1,
        ttl: 0x0102_0304,
        addr_len: 4,
        ip_addr: IP,
    };
    assert_eq!(
        answer.to_be_bytes(),
        [0xC0, 0x0C, 0, 1, 0, 1, 1, 2, 3, 4, 0, 4, 192, 168, 71, 1]
    );
}

#[test]
fn names_are_written_with_dots() {
    let mut bytes = name(&[b"captive", b"apple", b"com"]);
    bytes.push(0x77);
    let mut req: &[u8] = &bytes;
    let mut dst = [0u8; 128];
    assert_eq!(parse_dns_name(&mut req, &mut dst), Some((19, "\0captive.apple.com.")));
    assert_eq!(req, &[0x77]);
}

#[test]
fn the_root_has_an_empty_name() {
    let mut req: &[u8] = &[0, 1, 2];
    let mut dst = [0u8; 1];
    assert_eq!(parse_dns_name(&mut req, &mut dst), Some((1, "\0")));
    assert_eq!(req, &[1, 2]);
}

#[test]
fn names_that_do_not_fit_are_refused() {
    let bytes = name(&[b"ab", b"cdef"]);
    let mut req: &[u8] = &bytes;
    // One byte short of the second label.
    let mut dst = [0xEEu8; 7];
    assert_eq!(parse_dns_name(&mut req, &mut dst), None);
    assert_eq!(dst, [0xEE, b'a', b'b', b'.', 0xEE, 0xEE, 0xEE]);
    assert_eq!(req, &bytes[4..]);
}

#[test]
fn names_that_are_no_text_are_refused() {
    let bytes = name(&[&[0xC3, 0x28]]);
    let mut req: &[u8] = &bytes;
    let mut dst = [0u8; 128];
    assert_eq!(parse_dns_name(&mut req, &mut dst), None);
    assert!(req.is_empty());
    let bytes = name(&["süß".as_bytes()]);
    let mut req: &[u8] = &bytes;
    assert_eq!(parse_dns_name(&mut req, &mut dst), Some((7, "\0süß.")));
}

#[test]
fn an_address_query_is_answered() {
    let mut req = header(0xBEEF, 0x0100, 1);
    let asked = question(&[b"example", b"org"], 1);
    req.extend_from_slice(&asked);
    let mut expected = vec![0xBE, 0xEF, 0x81, 0x00, 0, 1, 0, 1, 0, 0, 0, 0];
    expected.extend_from_slice(&asked);
    expected.extend_from_slice(&[0xC0, 0x0C, 0, 1, 0, 1, 0, 0, 0, 60, 0, 4, 192, 168, 71, 1]);
    assert_eq!(reply(&req, 256), Some(expected));
}

#[test]
fn trailing_bytes_are_not_repeated() {
    let mut req = header(1, 0, 1);
    req.extend_from_slice(&question(&[b"a"], 1));
    let exact = reply(&req, 256);
    req.extend_from_slice(&[1, 2, 3, 4, 5]);
    assert_eq!(reply(&req, 256), exact);
}

#[test]
fn later_pointers_count_names_only() {
    let mut req = header(1, 0, 2);
    req.extend_from_slice(&question(&[b"one"], 1));
    req.extend_from_slice(&question(&[b"two"], 1));
    let r = reply(&req, 256).unwrap();
    assert_eq!(r.len(), 12 + 9 + 9 + 32);
    assert_eq!(r[30..32], [0xC0, 0x0C]);
    assert_eq!(r[46..48], [0xC0, 0x11]);
}

#[test]
fn other_questions_leave_their_answers_blank() {
    let mut req = header(1, 0, 2);
    req.extend_from_slice(&question(&[b"x"], 28));
    req.extend_from_slice(&question(&[b"y"], 1));
    let mut buf = vec![0x99u8; 256];
    let r = build_dns_response(&req, IP, &mut buf).unwrap();
    assert_eq!(r.len(), 12 + 7 + 7 + 32);
    assert_eq!(r[6..8], [0, 2]);
    // The one answer stands first; behind it is what the buffer held.
    assert_eq!(r[26..28], [0xC0, 0x0F]);
    assert_eq!(r[38..42], [192, 168, 71, 1]);
    assert!(r[42..].iter().all(|b| *b == 0x99));
}

#[test]
fn no_questions_get_a_bare_header() {
    let req = header(7, 0, 0);
    assert_eq!(reply(&req, 256), Some(vec![0, 7, 0x80, 0, 0, 0, 0, 0, 0, 0, 0, 0]));
}

#[test]
fn unusable_requests_get_no_reply() {
    // Longer than the buffer.
    let mut req = header(1, 0, 1);
    req.extend_from_slice(&question(&[b"abc"], 1));
    assert_eq!(reply(&req, req.len() - 1), None);
    // The reply is longer than the buffer.
    assert_eq!(reply(&req, req.len() + 15), None);
    assert!(reply(&req, req.len() + 16).is_some());
    // No header.
    assert_eq!(reply(&[0; 11], 256), None);
    assert_eq!(reply(&[], 256), None);
    // Not a standard query.
    let mut inverse = header(1, 0x0800, 1);
    inverse.extend_from_slice(&question(&[b"abc"], 1));
    assert_eq!(reply(&inverse, 256), None);
    // Not text.
    let mut garbled = header(1, 0, 1);
    garbled.extend_from_slice(&question(&[&[0xFF]], 1));
    assert_eq!(reply(&garbled, 256), None);
    // Too long a name.
    let mut long = header(1, 0, 1);
    long.extend_from_slice(&question(&[&[b'a'; 63], &[b'b'; 62], &[b'c'; 5]], 1));
    assert_eq!(reply(&long, 256), None);
}

#[test]
fn a_refused_request_leaves_the_buffer_alone() {
    let mut buf = vec![0x42u8; 64];
    assert_eq!(build_dns_response(&header(1, 0x0800, 0), IP, &mut buf), None);
    assert!(buf.iter().all(|b| *b == 0x42));
    // One that is given up later has its header written.
    let mut garbled = header(1, 0, 1);
    garbled.extend_from_slice(&question(&[&[0xFF]], 1));
    assert_eq!(build_dns_response(&garbled, IP, &mut buf), None);
    assert_eq!(buf[..12], [0, 1, 0x80, 0, 0, 1, 0, 1, 0, 0, 0, 0]);
    assert!(buf[12..].iter().all(|b| *b == 0x42));
}

#[test]
fn broken_requests_are_told_apart() {
    // A name without its terminator.
    let mut req = header(1, 0, 1);
    req.extend_from_slice(&[3, b'a', b'b', b'c']);
    assert!(!is_answerable(&req, 256));
    // A label longer than what is left.
    let mut req = header(1, 0, 1);
    req.extend_from_slice(&[9, b'a', 0]);
    assert!(!is_answerable(&req, 256));
    // No question where one is promised.
    assert!(!is_answerable(&header(1, 0, 1), 256));
    // A question that is cut short.
    let mut req = header(1, 0, 1);
    req.extend_from_slice(&[1, b'a', 0, 0, 1, 0]);
    assert!(!is_answerable(&req, 256));
    // It does not matter where the reply would not fit anyway.
    assert!(is_answerable(&req, req.len() + 1));
    // A label that leaves no room for its dot.
    let mut req = header(1, 0, 1);
    req.extend_from_slice(&question(&[&[b'a'; 127]], 1));
    assert!(!is_answerable(&req, 256));
    let mut req = header(1, 0, 1);
    req.extend_from_slice(&question(&[&[b'a'; 126]], 1));
    assert!(is_answerable(&req, 256));
}

#[test]
fn only_requests_are_served() {
    let mut buf = vec![7u8; 256];
    assert_eq!(serve(None, IP, &mut buf), None);
    assert_eq!(serve(Some(&[]), IP, &mut buf), None);
    assert!(buf.iter().all(|b| *b == 7));
    let mut req = header(9, 0x0100, 1);
    req.extend(question(&[b"magic", b"paper"], 1));
    let expected = reply(&req, 256).unwrap();
    let mut buf = vec![0u8; 256];
    assert_eq!(serve(Some(&req), IP, &mut buf), Some(&expected[..]));
    // Too short for a header: no reply.
    assert_eq!(serve(Some(&req[..5]), IP, &mut vec![0u8; 256]), None);
}
