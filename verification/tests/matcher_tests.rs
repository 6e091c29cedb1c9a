use tacodns::config::Label;
use tacodns::regex::Pattern;
use tacodns::server::{does_match, rewrite_xname};

#[test]
fn test_does_match() {
    let com = &["com".to_string()];
    let example_com = &["example".to_string(), "com".to_string()];
    let www_example_com = &["www".to_string(), "example".to_string(), "com".to_string()];
    let lcom = Label::Basic("com".to_string());
    let lexample = Label::Basic("example".to_string());
    let lwww = Label::Basic("www".to_string());

    assert!(does_match(&[vec![Label::Basic("example".to_string())]], &["ExAmplE".to_string()]));

    assert!(does_match(&[vec![lcom.clone()]], com));
    assert!(!does_match(&[vec![lcom.clone()]], example_com));
    assert!(does_match(&[vec![lexample.clone(), lcom.clone()]], example_com));
    assert!(!does_match(&[vec![lexample.clone(), lcom.clone()]], com));
    assert!(does_match(&[vec![lwww.clone(), lexample.clone(), lcom.clone()]], www_example_com));

    assert!(!does_match(&[vec![Label::Wildcard, lcom.clone()]], com));
    assert!(does_match(&[vec![Label::Wildcard, lcom.clone()]], example_com));
    assert!(!does_match(&[vec![Label::Wildcard, lcom.clone()]], www_example_com));
    assert!(does_match(&[vec![Label::Wildcard, Label::Wildcard, lcom.clone()]], www_example_com));

    assert!(!does_match(&[vec![lwww.clone(), Label::Wildcard, lcom.clone()]], com));
    assert!(!does_match(&[vec![lwww.clone(), Label::Wildcard, lcom.clone()]], example_com));
    assert!(does_match(&[vec![lwww.clone(), Label::Wildcard, lcom.clone()]], www_example_com));

    assert!(!does_match(&[vec![Label::SubWildcard, lcom.clone()]], com));
    assert!(does_match(&[vec![Label::SubWildcard, lcom.clone()]], example_com));
    assert!(does_match(&[vec![Label::SubWildcard, lcom.clone()]], www_example_com));

    assert!(!does_match(&[vec![Label::AllWildcard, lcom.clone()]], &[]));
    assert!(does_match(&[vec![Label::AllWildcard, lcom.clone()]], com));
    assert!(does_match(&[vec![Label::AllWildcard, lcom.clone()]], example_com));
    assert!(does_match(&[vec![Label::AllWildcard, lcom.clone()]], www_example_com));

    assert!(does_match(&[vec![Label::Regex(false, Pattern::new(r"com").unwrap())]], com));
    assert!(!does_match(&[vec![Label::Regex(false, Pattern::new(r"com").unwrap())]], example_com));
    assert!(does_match(&[vec![Label::Regex(false, Pattern::new(r"c.m").unwrap())]], com));
    assert!(does_match(&[vec![Label::Regex(false, Pattern::new(r"[a-z]{3}").unwrap())]], com));

    assert!(!does_match(
        &[vec![Label::Regex(false, Pattern::new(r"[a-z]+").unwrap()), lcom.clone()]],
        com,
    ));
    assert!(does_match(
        &[vec![Label::Regex(false, Pattern::new(r"[a-z]+").unwrap()), lcom.clone()]],
        example_com,
    ));

    assert!(does_match(
        &[vec![lexample.clone(), Label::Regex(false, Pattern::new(r"com").unwrap())]],
        example_com,
    ));
    assert!(does_match(
        &[vec![Label::Regex(false, Pattern::new(r"example").unwrap()), lcom.clone()]],
        example_com,
    ));
    assert!(does_match(
        &[vec![Label::Wildcard, Label::Regex(false, Pattern::new(r"com").unwrap())]],
        example_com,
    ));
    assert!(does_match(
        &[vec![Label::SubWildcard, Label::Regex(false, Pattern::new(r"com").unwrap())]],
        example_com,
    ));
    assert!(does_match(
        &[vec![Label::AllWildcard, Label::Regex(false, Pattern::new(r"com").unwrap())]],
        example_com,
    ));
    assert!(does_match(
        &[vec![Label::AllWildcard, Label::Regex(false, Pattern::new(r"com").unwrap())]],
        com,
    ));
}

#[test]
fn test_rewrite_xname() {
    // Q: www2.example.com
    // www2.example.com CNAME www.example.com.
    assert_eq!(rewrite_xname("www.example.com.", "www2.example.com"), "www.example.com");

    // Q: www2.example.com
    // www2.example.com CNAME www
    assert_eq!(rewrite_xname("www", "www2.example.com"), "www.example.com");
}

#[test]
fn pattern_rejects_bad_regex() {
    assert!(Pattern::new(r"foo(bar").is_err());
    let p = Pattern::new(r"ab+c").unwrap();
    assert_eq!(p.as_str(), r"ab+c");
    assert!(p.is_match("xabbbc"));
    assert!(!p.is_match("ac"));
}
