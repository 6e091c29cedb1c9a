use tacodns::ttl::{parse_ttl, NotATtlError, Parse};
use tacodns::config::parse_value_ttl;

fn parse_ok(time: &str) -> u64 {
    <u64 as Parse<u64, NotATtlError>>::parse(time).unwrap()
}

#[test]
fn no_units() {
    assert_eq!(parse_ok("0"), 0);
    assert_eq!(parse_ok("1"), 1);
    assert_eq!(parse_ok("5"), 5);
    assert_eq!(parse_ok("5000"), 5000);
}

#[test]
fn seconds() {
    assert_eq!(parse_ok("0s"), 0);
    assert_eq!(parse_ok("1s"), 1);
    assert_eq!(parse_ok("5s"), 5);
    assert_eq!(parse_ok("5000s"), 5000);
}

#[test]
fn minutes() {
    assert_eq!(parse_ok("0m"), 0);
    assert_eq!(parse_ok("1m"), 60);
    assert_eq!(parse_ok("5m"), 5 * 60);
    assert_eq!(parse_ok("5000m"), 5000 * 60);
}

#[test]
fn hours() {
    assert_eq!(parse_ok("0h"), 0);
    assert_eq!(parse_ok("1h"), 60 * 60);
    assert_eq!(parse_ok("5h"), 5 * 60 * 60);
    assert_eq!(parse_ok("5000h"), 5000 * 60 * 60);
}

#[test]
fn days() {
    assert_eq!(parse_ok("0d"), 0);
    assert_eq!(parse_ok("1d"), 60 * 60 * 24);
    assert_eq!(parse_ok("5d"), 5 * 60 * 60 * 24);
    assert_eq!(parse_ok("5000d"), 5000 * 60 * 60 * 24);
}

#[test]
fn weeks() {
    assert_eq!(parse_ok("0w"), 0);
    assert_eq!(parse_ok("1w"), 60 * 60 * 24 * 7);
    assert_eq!(parse_ok("5w"), 5 * 60 * 60 * 24 * 7);
    assert_eq!(parse_ok("5000w"), 5000 * 60 * 60 * 24 * 7);
}

#[test]
fn not_a_ttl() {
    assert_eq!(parse_ttl("abc"), Err(NotATtlError));
    assert_eq!(parse_ttl(""), Err(NotATtlError));
    assert_eq!(parse_ttl("w"), Err(NotATtlError));
    assert_eq!(parse_ttl("5x"), Err(NotATtlError));
    // a value beyond 64 bits is not a TTL either
    assert_eq!(parse_ttl("99999999999999999999999"), Err(NotATtlError));
}

#[test]
fn test_parse_value_ttl() {
    assert_eq!(
        parse_value_ttl("test", 30),
        ("test".to_string(), 30, vec![])
    );
    assert_eq!(parse_value_ttl("test 1", 30), ("test".to_string(), 1, vec![]));
    assert_eq!(
        parse_value_ttl("test 1m", 30),
        ("test".to_string(), 60, vec![])
    );
}

#[test]
fn value_ttl_flags() {
    assert_eq!(
        parse_value_ttl("10.1.2.3 external 5m", 30),
        ("10.1.2.3".to_string(), 300, vec!["external".to_string()])
    );
    assert_eq!(
        parse_value_ttl("host external", 30),
        ("host".to_string(), 30, vec!["external".to_string()])
    );
}
