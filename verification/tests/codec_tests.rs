use tacodns::protocol::{
    make_message_from_question, parse, serialize, serialize_name, Message, Question, Resource,
};
use tacodns::record_type;

fn name(labels: &[&str]) -> Vec<String> {
    labels.iter().map(|l| l.to_string()).collect()
}

/// A plain A query for example.com, as it appears on the wire.
fn example_query_bytes() -> Vec<u8> {
    vec![
        0x12, 0x34, // id
        0x01, 0x00, // flags: rd
        0x00, 0x01, // one question
        0x00, 0x00, 0x00, 0x00, 0x00, 0x00, // no other records
        7, b'e', b'x', b'a', b'm', b'p', b'l', b'e', 3, b'c', b'o', b'm', 0, // name
        0x00, 0x01, // qtype A
        0x00, 0x01, // qclass IN
    ]
}

#[test]
fn parse_plain_query() {
    let m = parse(&example_query_bytes()).unwrap();
    assert_eq!(m.header.id, 0x1234);
    assert!(!m.header.qr);
    assert!(m.header.rd);
    assert_eq!(m.question.len(), 1);
    assert_eq!(m.question[0].qname, name(&["example", "com"]));
    assert_eq!(m.question[0].qtype, record_type::A);
    assert_eq!(m.question[0].qclass, 1);
    assert!(m.answer.is_empty() && m.authority.is_empty() && m.additional.is_empty());
    assert!(m.edns.is_none());
}

#[test]
fn parse_rejects_short_input() {
    assert!(parse(&[0x12, 0x34, 0x01]).is_err());
    // a question count with no question bytes behind it
    assert!(parse(&[0, 0, 0, 0, 0, 9, 0, 0, 0, 0, 0, 0]).is_err());
}

#[test]
fn parse_rejects_bad_pointer_chain() {
    // a name that is a compression pointer to itself
    let bytes = vec![
        0, 0, 0, 0, 0, 1, 0, 0, 0, 0, 0, 0, // header, one question
        0xC0, 12, // pointer to offset 12: an endless chain
        0, 1, 0, 1,
    ];
    assert!(parse(&bytes).is_err());
}

#[test]
fn parse_follows_compression_pointer() {
    // answer rname is a pointer back into the question name
    let bytes = vec![
        0, 1, 0x80, 0, // id 1, qr
        0, 1, 0, 1, 0, 0, 0, 0, // one question, one answer
        7, b'e', b'x', b'a', b'm', b'p', b'l', b'e', 3, b'c', b'o', b'm', 0, // offset 12
        0, 1, 0, 1, // A IN
        0xC0, 12, // pointer to the question name
        0, 1, 0, 1, // A IN
        0, 0, 0, 100, // ttl
        0, 4, 10, 10, 10, 10, // rdata
    ];
    let m = parse(&bytes).unwrap();
    assert_eq!(m.answer.len(), 1);
    assert_eq!(m.answer[0].rname, name(&["example", "com"]));
    assert_eq!(m.answer[0].rdata, vec![10, 10, 10, 10]);
    assert_eq!(m.answer[0].ttl, 100);
}

#[test]
fn parse_promotes_edns() {
    let bytes = vec![
        0, 1, 0, 0, // id, flags
        0, 0, 0, 0, 0, 0, 0, 1, // one additional
        0, // root name
        0, 41, // OPT
        0x10, 0x00, // payload size 4096
        0, 0, 0, 0, // extended rcode/flags
        0, 4, // rdata length
        0, 10, 0, 0, // one option: code 10, empty data
    ];
    let m = parse(&bytes).unwrap();
    assert!(m.additional.is_empty());
    let edns = m.edns.unwrap();
    assert_eq!(edns.udp_payload_size, 4096);
    assert_eq!(edns.options.len(), 1);
    assert_eq!(edns.options[0].code, 10);
    assert_eq!(edns.options[0].data, Vec::<u8>::new());
}

#[test]
fn serialize_parse_round_trip() {
    // a full response: header flags, a question, answers, authority
    let m = Message {
        header: tacodns::protocol::Header {
            id: 77,
            qr: true,
            opcode: 0,
            aa: true,
            tc: false,
            rd: true,
            ra: false,
            z: 0,
            rcode: 0,
        },
        question: vec![Question { qname: name(&["example", "com"]), qtype: 1, qclass: 1 }],
        answer: vec![Resource {
            rname: name(&["example", "com"]),
            rtype: 1,
            rclass: 1,
            ttl: 100,
            rdata: vec![10, 10, 10, 10],
        }],
        authority: vec![Resource {
            rname: name(&["example", "com"]),
            rtype: record_type::NS,
            rclass: 1,
            ttl: 300,
            rdata: serialize_name(&name(&["ns", "example", "com"])),
        }],
        additional: vec![],
        edns: None,
    };
    let bytes = serialize(&m, true);
    let back = parse(&bytes).unwrap();
    assert_eq!(back, m);
}

#[test]
fn serialize_truncates_over_udp() {
    // many answers do not fit in 512 bytes without EDNS: the encoder
    // keeps whole leading records and sets TC
    let answers: Vec<Resource> = (0..60)
        .map(|i| Resource {
            rname: name(&["example", "com"]),
            rtype: 16,
            rclass: 1,
            ttl: 60,
            rdata: vec![i as u8; 10],
        })
        .collect();
    let m = Message {
        question: vec![Question { qname: name(&["example", "com"]), qtype: 16, qclass: 1 }],
        answer: answers,
        ..Message::default()
    };
    let bytes = serialize(&m, false);
    assert!(bytes.len() <= 512);
    let back = parse(&bytes).unwrap();
    assert!(back.header.tc);
    assert!(back.answer.len() < 60);
    assert_eq!(back.question.len(), 1);
    // over TCP everything fits and TC stays clear
    let tcp_bytes = serialize(&m, true);
    let tcp_back = parse(&tcp_bytes).unwrap();
    assert!(!tcp_back.header.tc);
    assert_eq!(tcp_back.answer.len(), 60);
}

#[test]
fn serialize_appends_opt_for_edns() {
    let q = example_query_bytes();
    let mut with_opt = q.clone();
    // rewrite counts: one question, one additional
    with_opt[11] = 1;
    with_opt.extend_from_slice(&[0, 0, 41, 0x10, 0, 0, 0, 0, 0, 0, 0]);
    let m = parse(&with_opt).unwrap();
    assert!(m.edns.is_some());
    let out = serialize(&m, false);
    let back = parse(&out).unwrap();
    // the OPT pseudo record is demoted on encode and promoted again
    assert!(back.edns.is_some());
    assert!(back.additional.is_empty());
}

#[test]
fn serialize_name_wire_form() {
    assert_eq!(
        serialize_name(&name(&["mail", "example", "com"])),
        vec![4, b'm', b'a', b'i', b'l', 7, b'e', b'x', b'a', b'm', b'p', b'l', b'e', 3, b'c', b'o', b'm', 0],
    );
    assert_eq!(serialize_name(&name(&[])), vec![0]);
}

#[test]
fn message_from_question() {
    let m = make_message_from_question(vec![Question {
        qname: name(&["example", "com"]),
        qtype: 1,
        qclass: 1,
    }]);
    assert!(m.header.rd);
    assert!(!m.header.qr);
    assert_eq!(m.question.len(), 1);
    assert!(m.answer.is_empty());
}

#[test]
fn parse_canonicalizes_cname_rdata() {
    // a CNAME whose rdata points into the question name by compression:
    // the decoder re-encodes it without compression
    let bytes = vec![
        0, 1, 0x80, 0, // header
        0, 1, 0, 1, 0, 0, 0, 0, // one question, one answer
        3, b'w', b'w', b'w', 7, b'e', b'x', b'a', b'm', b'p', b'l', b'e', 3, b'c', b'o', b'm',
        0, // question name at offset 12
        0, 5, 0, 1, // CNAME IN
        0xC0, 12, // rname: pointer to www.example.com
        0, 5, 0, 1, // CNAME IN
        0, 0, 0, 50, // ttl
        0, 2, 0xC0, 16, // rdata: pointer to example.com
    ];
    let m = parse(&bytes).unwrap();
    assert_eq!(m.answer.len(), 1);
    assert_eq!(
        m.answer[0].rdata,
        vec![7, b'e', b'x', b'a', b'm', b'p', b'l', b'e', 3, b'c', b'o', b'm', 0],
    );
}

#[test]
fn tc_flag_survives_round_trip() {
    // a header-only message with TC already set: re-encoding without
    // truncation keeps the flag
    let bytes = vec![0, 7, 0x02, 0x00, 0, 0, 0, 0, 0, 0, 0, 0];
    let m = parse(&bytes).unwrap();
    assert!(m.header.tc);
    let back = parse(&serialize(&m, true)).unwrap();
    assert!(back.header.tc);
    assert_eq!(back, m);
}

#[test]
fn oversized_question_is_emitted_partially() {
    // a single question too large for the 512-byte UDP budget: the
    // encoder still emits it, cut at the budget, with TC set
    let big_name: Vec<String> = (0..60).map(|i| format!("label{:05}", i)).collect();
    let m = Message {
        question: vec![Question { qname: big_name, qtype: 1, qclass: 1 }],
        ..Message::default()
    };
    let udp = serialize(&m, false);
    assert_eq!(udp.len(), 512);
    // TC is set (bit 9 of the flags word)
    assert!(udp[2] & 0x02 != 0);
    // the question is counted present, the other sections are empty
    assert_eq!(&udp[4..12], &[0, 1, 0, 0, 0, 0, 0, 0]);
    // the bytes emitted are the leading bytes of the full wire form
    let tcp = serialize(&m, true);
    assert_eq!(&udp[12..], &tcp[12..512]);
}
