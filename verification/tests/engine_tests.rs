use tacodns::config::{
    AaaaRecord, ARecord, CnameRecord, Config, Endpoint, IpRepr, Label, MxRecord, NsRecord,
    Records, Zone,
};
use tacodns::protocol::{Question, Resource};
use tacodns::record_type;
use tacodns::server::{handle_dns, DnsOutcome, UpstreamTable};

fn test_resolver() -> Endpoint {
    Endpoint { ip: IpRepr::V4([127, 0, 0, 53]), port: 53 }
}

fn empty_records() -> Records {
    Records {
        a: vec![],
        aaaa: vec![],
        ns: vec![],
        cname: vec![],
        aname: vec![],
        mx: vec![],
        txt: vec![],
        rns: vec![],
    }
}

fn run(question: &Question, config: &Config) -> DnsOutcome {
    let out = handle_dns(question, &test_resolver(), config, &UpstreamTable::default(), 64);
    assert!(out.pending.is_empty());
    out
}

fn name(labels: &[&str]) -> Vec<String> {
    labels.iter().map(|l| l.to_string()).collect()
}

#[test]
fn mod_test_a() {
    let out = run(
        &Question { qname: name(&["example", "com"]), qtype: record_type::A, qclass: 1 },
        &Config {
            ttl: 1800,
            zones: vec![Zone {
                matchers: vec![vec![
                    Label::Basic("example".to_string()),
                    Label::Basic("com".to_string()),
                ]],
                records: Records {
                    a: vec![ARecord { ttl: 100, ip4addr: [10, 10, 10, 10] }],
                    ..empty_records()
                },
            }],
        },
    );
    assert_eq!(
        (out.answer, out.authority, out.additional),
        (
            vec![Resource {
                rname: name(&["example", "com"]),
                rtype: record_type::A,
                rclass: 1,
                ttl: 100,
                rdata: vec![10, 10, 10, 10],
            }],
            vec![],
            vec![],
        )
    );

    let out = run(
        &Question { qname: name(&["example", "com"]), qtype: record_type::A, qclass: 1 },
        &Config {
            ttl: 1800,
            zones: vec![Zone {
                matchers: vec![vec![
                    Label::Basic("example".to_string()),
                    Label::Basic("com".to_string()),
                ]],
                records: Records {
                    a: vec![
                        ARecord { ttl: 100, ip4addr: [10, 10, 10, 10] },
                        ARecord { ttl: 100, ip4addr: [11, 11, 11, 11] },
                    ],
                    ..empty_records()
                },
            }],
        },
    );
    assert_eq!(
        (out.answer, out.authority, out.additional),
        (
            vec![
                Resource {
                    rname: name(&["example", "com"]),
                    rtype: record_type::A,
                    rclass: 1,
                    ttl: 100,
                    rdata: vec![10, 10, 10, 10],
                },
                Resource {
                    rname: name(&["example", "com"]),
                    rtype: record_type::A,
                    rclass: 1,
                    ttl: 100,
                    rdata: vec![11, 11, 11, 11],
                },
            ],
            vec![],
            vec![],
        )
    );
}

#[test]
fn test_case() {
    let out = run(
        &Question { qname: name(&["ExAmple", "cOm"]), qtype: record_type::A, qclass: 1 },
        &Config {
            ttl: 1800,
            zones: vec![Zone {
                matchers: vec![vec![
                    Label::Basic("example".to_string()),
                    Label::Basic("com".to_string()),
                ]],
                records: Records {
                    a: vec![ARecord { ttl: 100, ip4addr: [10, 10, 10, 10] }],
                    ..empty_records()
                },
            }],
        },
    );
    assert_eq!(
        (out.answer, out.authority, out.additional),
        (
            vec![Resource {
                rname: name(&["ExAmple", "cOm"]),
                rtype: record_type::A,
                rclass: 1,
                ttl: 100,
                rdata: vec![10, 10, 10, 10],
            }],
            vec![],
            vec![],
        )
    );
}

#[test]
fn mod_test_aaaa() {
    let out = run(
        &Question { qname: name(&["example", "com"]), qtype: record_type::AAAA, qclass: 1 },
        &Config {
            ttl: 1800,
            zones: vec![Zone {
                matchers: vec![vec![
                    Label::Basic("example".to_string()),
                    Label::Basic("com".to_string()),
                ]],
                records: Records {
                    aaaa: vec![AaaaRecord {
                        ttl: 100,
                        ip6addr: [0, 0, 0, 0, 0, 0, 0, 0, 0, 0, 0, 0, 0, 0, 0, 1],
                    }],
                    ..empty_records()
                },
            }],
        },
    );
    assert_eq!(
        (out.answer, out.authority, out.additional),
        (
            vec![Resource {
                rname: name(&["example", "com"]),
                rtype: record_type::AAAA,
                rclass: 1,
                ttl: 100,
                rdata: vec![0, 0, 0, 0, 0, 0, 0, 0, 0, 0, 0, 0, 0, 0, 0, 1],
            }],
            vec![],
            vec![],
        )
    );

    let out = run(
        &Question { qname: name(&["example", "com"]), qtype: record_type::AAAA, qclass: 1 },
        &Config {
            ttl: 1800,
            zones: vec![Zone {
                matchers: vec![vec![
                    Label::Basic("example".to_string()),
                    Label::Basic("com".to_string()),
                ]],
                records: Records {
                    aaaa: vec![
                        AaaaRecord {
                            ttl: 100,
                            ip6addr: [0, 0, 0, 0, 0, 0, 0, 0, 0, 0, 0, 0, 0, 0, 0, 2],
                        },
                        AaaaRecord {
                            ttl: 100,
                            ip6addr: [0, 0, 0, 0, 0, 0, 0, 0, 0, 0, 0, 0, 0, 0, 0, 3],
                        },
                    ],
                    ..empty_records()
                },
            }],
        },
    );
    assert_eq!(
        (out.answer, out.authority, out.additional),
        (
            vec![
                Resource {
                    rname: name(&["example", "com"]),
                    rtype: record_type::AAAA,
                    rclass: 1,
                    ttl: 100,
                    rdata: vec![0, 0, 0, 0, 0, 0, 0, 0, 0, 0, 0, 0, 0, 0, 0, 2],
                },
                Resource {
                    rname: name(&["example", "com"]),
                    rtype: record_type::AAAA,
                    rclass: 1,
                    ttl: 100,
                    rdata: vec![0, 0, 0, 0, 0, 0, 0, 0, 0, 0, 0, 0, 0, 0, 0, 3],
                },
            ],
            vec![],
            vec![],
        )
    );
}

#[test]
fn test_ns() {
    let out = run(
        &Question { qname: name(&["example", "com"]), qtype: record_type::NS, qclass: 1 },
        &Config {
            ttl: 1800,
            zones: vec![Zone {
                matchers: vec![vec![
                    Label::Basic("example".to_string()),
                    Label::Basic("com".to_string()),
                ]],
                records: Records {
                    ns: vec![NsRecord { ttl: 100, name: "ns.example.com".to_string() }],
                    ..empty_records()
                },
            }],
        },
    );
    assert_eq!(
        (out.answer, out.authority, out.additional),
        (
            vec![],
            vec![Resource {
                rname: name(&["example", "com"]),
                rtype: record_type::NS,
                rclass: 1,
                ttl: 100,
                rdata: vec![2, 110, 115, 7, 101, 120, 97, 109, 112, 108, 101, 3, 99, 111, 109, 0],
            }],
            vec![],
        )
    );

    let out = run(
        &Question { qname: name(&["example", "com"]), qtype: record_type::NS, qclass: 1 },
        &Config {
            ttl: 1800,
            zones: vec![
                Zone {
                    matchers: vec![vec![
                        Label::Basic("example".to_string()),
                        Label::Basic("com".to_string()),
                    ]],
                    records: Records {
                        ns: vec![NsRecord { ttl: 100, name: "ns.example.com".to_string() }],
                        ..empty_records()
                    },
                },
                Zone {
                    matchers: vec![vec![
                        Label::Basic("ns".to_string()),
                        Label::Basic("example".to_string()),
                        Label::Basic("com".to_string()),
                    ]],
                    records: Records {
                        a: vec![ARecord { ttl: 100, ip4addr: [1, 1, 1, 1] }],
                        ..empty_records()
                    },
                },
            ],
        },
    );
    assert_eq!(
        (out.answer, out.authority, out.additional),
        (
            vec![],
            vec![Resource {
                rname: name(&["example", "com"]),
                rtype: record_type::NS,
                rclass: 1,
                ttl: 100,
                rdata: vec![2, 110, 115, 7, 101, 120, 97, 109, 112, 108, 101, 3, 99, 111, 109, 0],
            }],
            vec![Resource {
                rname: name(&["ns", "example", "com"]),
                rtype: record_type::A,
                rclass: 1,
                ttl: 100,
                rdata: vec![1, 1, 1, 1],
            }],
        )
    );
}

#[test]
fn test_cname() {
    let out = run(
        &Question { qname: name(&["www", "example", "com"]), qtype: record_type::A, qclass: 1 },
        &Config {
            ttl: 1800,
            zones: vec![
                Zone {
                    matchers: vec![vec![
                        Label::Basic("example".to_string()),
                        Label::Basic("com".to_string()),
                    ]],
                    records: Records {
                        a: vec![ARecord { ttl: 100, ip4addr: [127, 0, 0, 1] }],
                        ..empty_records()
                    },
                },
                Zone {
                    matchers: vec![vec![
                        Label::Basic("www".to_string()),
                        Label::Basic("example".to_string()),
                        Label::Basic("com".to_string()),
                    ]],
                    records: Records {
                        cname: vec![CnameRecord { ttl: 100, name: "example.com.".to_string() }],
                        ..empty_records()
                    },
                },
            ],
        },
    );
    assert_eq!(
        (out.answer, out.authority, out.additional),
        (
            vec![
                Resource {
                    rname: name(&["www", "example", "com"]),
                    rtype: record_type::CNAME,
                    rclass: 1,
                    ttl: 100,
                    rdata: vec![
                        7, b'e', b'x', b'a', b'm', b'p', b'l', b'e', 3, b'c', b'o', b'm', 0,
                    ],
                },
                Resource {
                    rname: name(&["example", "com"]),
                    rtype: record_type::A,
                    rclass: 1,
                    ttl: 100,
                    rdata: vec![127, 0, 0, 1],
                },
            ],
            vec![],
            vec![],
        )
    );

    let out = run(
        &Question { qname: name(&["www2", "example", "com"]), qtype: record_type::A, qclass: 1 },
        &Config {
            ttl: 1800,
            zones: vec![
                Zone {
                    matchers: vec![vec![
                        Label::Basic("example".to_string()),
                        Label::Basic("com".to_string()),
                    ]],
                    records: Records {
                        a: vec![ARecord { ttl: 100, ip4addr: [127, 0, 0, 1] }],
                        ..empty_records()
                    },
                },
                Zone {
                    matchers: vec![vec![
                        Label::Basic("www".to_string()),
                        Label::Basic("example".to_string()),
                        Label::Basic("com".to_string()),
                    ]],
                    records: Records {
                        cname: vec![CnameRecord { ttl: 100, name: "example.com.".to_string() }],
                        ..empty_records()
                    },
                },
                Zone {
                    matchers: vec![vec![
                        Label::Basic("www2".to_string()),
                        Label::Basic("example".to_string()),
                        Label::Basic("com".to_string()),
                    ]],
                    records: Records {
                        cname: vec![CnameRecord { ttl: 100, name: "www".to_string() }],
                        ..empty_records()
                    },
                },
            ],
        },
    );
    assert_eq!(
        (out.answer, out.authority, out.additional),
        (
            vec![
                Resource {
                    rname: name(&["www2", "example", "com"]),
                    rtype: record_type::CNAME,
                    rclass: 1,
                    ttl: 100,
                    rdata: vec![
                        3, b'w', b'w', b'w', 7, b'e', b'x', b'a', b'm', b'p', b'l', b'e', 3,
                        b'c', b'o', b'm', 0,
                    ],
                },
                Resource {
                    rname: name(&["www", "example", "com"]),
                    rtype: record_type::CNAME,
                    rclass: 1,
                    ttl: 100,
                    rdata: vec![
                        7, b'e', b'x', b'a', b'm', b'p', b'l', b'e', 3, b'c', b'o', b'm', 0,
                    ],
                },
                Resource {
                    rname: name(&["example", "com"]),
                    rtype: record_type::A,
                    rclass: 1,
                    ttl: 100,
                    rdata: vec![127, 0, 0, 1],
                },
            ],
            vec![],
            vec![],
        )
    );
}

#[test]
fn test_mx() {
    let out = run(
        &Question { qname: name(&["example", "com"]), qtype: record_type::MX, qclass: 1 },
        &Config {
            ttl: 1800,
            zones: vec![Zone {
                matchers: vec![vec![
                    Label::Basic("example".to_string()),
                    Label::Basic("com".to_string()),
                ]],
                records: Records {
                    mx: vec![MxRecord {
                        ttl: 100,
                        priority: 10,
                        host: "mail.example.com".to_string(),
                    }],
                    ..empty_records()
                },
            }],
        },
    );
    assert_eq!(
        (out.answer, out.authority, out.additional),
        (
            vec![Resource {
                rname: name(&["example", "com"]),
                rtype: record_type::MX,
                rclass: 1,
                ttl: 100,
                rdata: vec![
                    0, 10, 4, b'm', b'a', b'i', b'l', 7, b'e', b'x', b'a', b'm', b'p', b'l',
                    b'e', 3, b'c', b'o', b'm', 0,
                ],
            }],
            vec![],
            vec![],
        )
    );
}

#[test]
fn aname_returns_addresses_under_query_name() {
    // ANAME: the target's addresses come back under the original name
    let out = run(
        &Question { qname: name(&["example", "com"]), qtype: record_type::A, qclass: 1 },
        &Config {
            ttl: 1800,
            zones: vec![
                Zone {
                    matchers: vec![vec![
                        Label::Basic("example".to_string()),
                        Label::Basic("com".to_string()),
                    ]],
                    records: Records {
                        aname: vec![tacodns::config::AnameRecord {
                            ttl: 100,
                            name: "target.example.com.".to_string(),
                        }],
                        ..empty_records()
                    },
                },
                Zone {
                    matchers: vec![vec![
                        Label::Basic("target".to_string()),
                        Label::Basic("example".to_string()),
                        Label::Basic("com".to_string()),
                    ]],
                    records: Records {
                        a: vec![ARecord { ttl: 50, ip4addr: [5, 6, 7, 8] }],
                        ..empty_records()
                    },
                },
            ],
        },
    );
    assert_eq!(
        out.answer,
        vec![Resource {
            rname: name(&["example", "com"]),
            rtype: record_type::A,
            rclass: 1,
            ttl: 50,
            rdata: vec![5, 6, 7, 8],
        }],
    );
}

#[test]
fn cname_loop_stops_at_depth_bound() {
    // an alias pointing at itself: the engine runs out of depth
    // instead of running forever
    let config = Config {
        ttl: 1800,
        zones: vec![Zone {
            matchers: vec![vec![
                Label::Basic("loopy".to_string()),
                Label::Basic("com".to_string()),
            ]],
            records: Records {
                cname: vec![CnameRecord { ttl: 100, name: "loopy.com.".to_string() }],
                ..empty_records()
            },
        }],
    };
    let out = handle_dns(
        &Question { qname: name(&["loopy", "com"]), qtype: record_type::A, qclass: 1 },
        &test_resolver(),
        &config,
        &UpstreamTable::default(),
        8,
    );
    // one CNAME record per level of the chase
    assert!(!out.answer.is_empty());
    assert!(out.answer.iter().all(|r| r.rtype == record_type::CNAME));
}
