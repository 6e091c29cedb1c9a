use tacodns::config::{ARecord, Config, Endpoint, IpRepr, Label, Records, RnsHost, RnsRecord, Zone};
use tacodns::protocol::{parse, Question, Resource};
use tacodns::server::{
    handle_request, response_of_message, Lookup, RequestOutcome, Response, UpstreamEntry,
    UpstreamTable,
};

fn name(labels: &[&str]) -> Vec<String> {
    labels.iter().map(|l| l.to_string()).collect()
}

fn resolver() -> Endpoint {
    Endpoint { ip: IpRepr::V4([127, 0, 0, 53]), port: 53 }
}

fn empty_records() -> Records {
    Records {
        a: vec![],
        aaaa: vec![],
        ns: vec![],
        cname: vec![],
        aname: vec![],
        mx: vec![],
        txt: vec![],
        rns: vec![],
    }
}

fn a_zone() -> Config {
    Config {
        ttl: 1800,
        zones: vec![Zone {
            matchers: vec![vec![
                Label::Basic("example".to_string()),
                Label::Basic("com".to_string()),
            ]],
            records: Records {
                a: vec![ARecord { ttl: 100, ip4addr: [10, 10, 10, 10] }],
                ..empty_records()
            },
        }],
    }
}

fn query_bytes() -> Vec<u8> {
    vec![
        0x12, 0x34, 0x01, 0x00, // id, rd
        0, 1, 0, 0, 0, 0, 0, 0, // one question
        7, b'e', b'x', b'a', b'm', b'p', b'l', b'e', 3, b'c', b'o', b'm', 0, 0, 1, 0, 1,
    ]
}

#[test]
fn request_answered_from_zone() {
    let out = handle_request(
        &query_bytes(),
        &resolver(),
        &a_zone(),
        &UpstreamTable::default(),
        false,
        64,
    );
    let bytes = match out {
        RequestOutcome::Reply(b) => b,
        other => panic!("expected a reply, got {:?}", other),
    };
    let m = parse(&bytes).unwrap();
    assert!(m.header.qr && m.header.aa && !m.header.ra);
    assert_eq!(m.header.rcode, 0);
    assert_eq!(m.header.id, 0x1234);
    assert_eq!(m.answer.len(), 1);
    assert_eq!(m.answer[0].rdata, vec![10, 10, 10, 10]);
    assert_eq!(m.answer[0].ttl, 100);
}

#[test]
fn request_drops_responses() {
    // a message with QR set is a response, not a request: dropped
    let mut bytes = query_bytes();
    bytes[2] |= 0x80;
    let out = handle_request(
        &bytes,
        &resolver(),
        &a_zone(),
        &UpstreamTable::default(),
        false,
        64,
    );
    assert_eq!(out, RequestOutcome::Dropped);
}

#[test]
fn request_drops_garbage() {
    let out = handle_request(
        &[1, 2, 3],
        &resolver(),
        &a_zone(),
        &UpstreamTable::default(),
        false,
        64,
    );
    assert_eq!(out, RequestOutcome::Dropped);
}

#[test]
fn delegation_waits_for_upstream_then_replies() {
    // a zone that only delegates: the engine first asks for the
    // upstream exchange, then serves its answer from the table
    let upstream_server = Endpoint { ip: IpRepr::V4([9, 9, 9, 9]), port: 53 };
    let config = Config {
        ttl: 1800,
        zones: vec![Zone {
            matchers: vec![vec![
                Label::Basic("example".to_string()),
                Label::Basic("com".to_string()),
            ]],
            records: Records {
                rns: vec![RnsRecord {
                    ttl: 30,
                    host: RnsHost::SocketAddr(upstream_server),
                    external: false,
                }],
                ..empty_records()
            },
        }],
    };
    let out = handle_request(
        &query_bytes(),
        &resolver(),
        &config,
        &UpstreamTable::default(),
        false,
        64,
    );
    let lookups = match out {
        RequestOutcome::NeedsLookups(l) => l,
        other => panic!("expected pending lookups, got {:?}", other),
    };
    assert!(lookups.contains(&Lookup {
        server: upstream_server,
        question: Question { qname: name(&["example", "com"]), qtype: 1, qclass: 1 },
    }));

    // the caller performs the lookups and retries with a fuller table
    let mut table = UpstreamTable::default();
    for lk in lookups {
        table.entries.push(UpstreamEntry {
            server: lk.server,
            question: lk.question.clone(),
            response: Response::Records(
                vec![Resource {
                    rname: lk.question.qname.clone(),
                    rtype: lk.question.qtype,
                    rclass: 1,
                    ttl: 25,
                    rdata: vec![99, 99, 99, 99],
                }],
                vec![],
                vec![],
            ),
        });
    }
    let out = handle_request(&query_bytes(), &resolver(), &config, &table, false, 64);
    let bytes = match out {
        RequestOutcome::Reply(b) => b,
        other => panic!("expected a reply, got {:?}", other),
    };
    let m = parse(&bytes).unwrap();
    assert_eq!(m.answer.len(), 1);
    assert_eq!(m.answer[0].rdata, vec![99, 99, 99, 99]);
}

#[test]
fn upstream_rcode_classification() {
    let mut m = tacodns::protocol::Message::default();
    m.header.rcode = 3;
    assert_eq!(response_of_message(m), Response::NameError);
    let mut m = tacodns::protocol::Message::default();
    m.header.rcode = 2;
    assert_eq!(response_of_message(m), Response::ServerFailure);
    let mut m = tacodns::protocol::Message::default();
    m.header.rcode = 0;
    m.answer.push(Resource::default());
    assert_eq!(
        response_of_message(m),
        Response::Records(vec![Resource::default()], vec![], vec![])
    );
}
