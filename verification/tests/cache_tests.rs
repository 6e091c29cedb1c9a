use tacodns::cache::Cache;
use tacodns::protocol::{Question, Resource};

fn name(labels: &[&str]) -> Vec<String> {
    labels.iter().map(|l| l.to_string()).collect()
}

fn question() -> Question {
    Question { qname: name(&["example", "com"]), qtype: 1, qclass: 1 }
}

fn answer(ttl: u32) -> Vec<Resource> {
    vec![Resource {
        rname: name(&["example", "com"]),
        rtype: 1,
        rclass: 1,
        ttl,
        rdata: vec![10, 10, 10, 10],
    }]
}

#[test]
fn cache_serves_with_decremented_ttl() {
    let mut cache = Cache::new();
    cache.insert(question(), answer(100), vec![], vec![], 1000);
    let (a, h, d) = cache.lookup(&question(), 1030).unwrap();
    assert_eq!(a[0].ttl, 70);
    assert!(h.is_empty() && d.is_empty());
}

#[test]
fn cache_ttls_never_increase() {
    // the same entry read at a later time serves smaller TTLs
    let mut cache = Cache::new();
    cache.insert(question(), answer(100), vec![], vec![], 1000);
    let (a1, _, _) = cache.lookup(&question(), 1010).unwrap();
    let (a2, _, _) = cache.lookup(&question(), 1050).unwrap();
    assert_eq!(a1[0].ttl, 90);
    assert_eq!(a2[0].ttl, 50);
    assert!(a2[0].ttl <= a1[0].ttl);
}

#[test]
fn cache_expires_after_least_ttl() {
    let mut cache = Cache::new();
    let mut records = answer(100);
    records.push(Resource {
        rname: name(&["example", "com"]),
        rtype: 1,
        rclass: 1,
        ttl: 10,
        rdata: vec![11, 11, 11, 11],
    });
    // the entry lives for the smallest TTL: 10 seconds
    cache.insert(question(), records, vec![], vec![], 1000);
    assert!(cache.lookup(&question(), 1009).is_some());
    assert!(cache.lookup(&question(), 1010).is_none());
    // the expired entry was removed on access
    assert!(cache.entries.is_empty());
}

#[test]
fn cache_misses_other_questions() {
    let mut cache = Cache::new();
    cache.insert(question(), answer(100), vec![], vec![], 1000);
    let other = Question { qname: name(&["other", "com"]), qtype: 1, qclass: 1 };
    assert!(cache.lookup(&other, 1001).is_none());
    assert!(cache.lookup(&question(), 1001).is_some());
}

#[test]
fn cache_replaces_entry_for_same_question() {
    let mut cache = Cache::new();
    cache.insert(question(), answer(100), vec![], vec![], 1000);
    cache.insert(question(), answer(200), vec![], vec![], 1500);
    assert_eq!(cache.entries.len(), 1);
    let (a, _, _) = cache.lookup(&question(), 1500).unwrap();
    assert_eq!(a[0].ttl, 200);
}
