use tacodns::config::{
    parse_allwildcard, parse_basic, parse_label, parse_regex, parse_subwildcard, parse_wildcard,
    parse_zone_matcher, parse_zone_matchers, Label,
};
use tacodns::regex::Pattern;

fn rx(pattern: &str) -> Pattern {
    Pattern::new(pattern).unwrap()
}

#[test]
fn test_parse_basic() {
    assert_eq!(parse_basic("test".as_ref()).unwrap().1, Label::Basic("test".to_string()));
    assert_eq!(parse_basic("test.".as_ref()).unwrap().1, Label::Basic("test".to_string()));
    assert_eq!(parse_basic("TeSt.".as_ref()).unwrap().1, Label::Basic("test".to_string()));
}

#[test]
fn test_parse_regex() {
    assert_eq!(parse_regex("/test/".as_ref()).unwrap().1, Label::Regex(false, rx(r"test")));
    assert_eq!(parse_regex(r"/te\dst/".as_ref()).unwrap().1, Label::Regex(false, rx(r"te\dst")));
    assert_eq!(parse_regex(r"/te\/st/".as_ref()).unwrap().1, Label::Regex(false, rx(r"te/st")));

    assert_eq!(
        parse_regex(r"/abc\.xyz/".as_ref()).unwrap().1,
        Label::Regex(true, rx(r"abc\.xyz")),
    );
    assert_eq!(
        parse_regex(r"/abc.xyz/".as_ref()).unwrap().1,
        Label::Regex(false, rx(r"abc.xyz")),
    );
}

#[test]
fn test_parse_wildcard() {
    assert_eq!(parse_wildcard("*".as_ref()).unwrap().1, Label::Wildcard);
}

#[test]
fn test_parse_subwildcard() {
    assert_eq!(parse_subwildcard("**".as_ref()).unwrap().1, Label::SubWildcard);
}

#[test]
fn test_parse_allwildcard() {
    assert_eq!(parse_allwildcard("***".as_ref()).unwrap().1, Label::AllWildcard);
}

#[test]
fn test_parse_labels() {
    assert_eq!(parse_basic("test".as_ref()).unwrap().1, Label::Basic("test".to_string()));
    assert_eq!(parse_basic("test.".as_ref()).unwrap().1, Label::Basic("test".to_string()));
}

#[test]
fn test_parse_zone_matcher() {
    assert_eq!(
        parse_zone_matcher("abc".as_ref()).unwrap().1,
        vec![Label::Basic("abc".to_string())],
    );
    assert_eq!(
        parse_zone_matcher("abc.xyz".as_ref()).unwrap().1,
        vec![Label::Basic("abc".to_string()), Label::Basic("xyz".to_string())],
    );
    assert_eq!(
        parse_zone_matcher("*.xyz".as_ref()).unwrap().1,
        vec![Label::Wildcard, Label::Basic("xyz".to_string())],
    );
    assert_eq!(
        parse_zone_matcher("/abc/./xyz/".as_ref()).unwrap().1,
        vec![Label::Regex(false, rx(r"abc")), Label::Regex(false, rx(r"xyz"))],
    );
}

#[test]
fn test_parse_zone_matchers() {
    assert_eq!(
        parse_zone_matchers("abc,123".as_ref()).unwrap().1,
        vec![vec![Label::Basic("abc".to_string())], vec![Label::Basic("123".to_string())]],
    );
    assert_eq!(
        parse_zone_matchers("abc,/123/".as_ref()).unwrap().1,
        vec![vec![Label::Basic("abc".to_string())], vec![Label::Regex(false, rx(r"123"))]],
    );
}

#[test]
fn test_parse_label_order() {
    // wildcard kinds are tried longest first
    assert_eq!(parse_label("***x".as_ref()).unwrap().1, Label::AllWildcard);
    assert_eq!(parse_label("**x".as_ref()).unwrap().1, Label::SubWildcard);
    assert_eq!(parse_label("*x".as_ref()).unwrap().1, Label::Wildcard);
    assert!(parse_label("".as_ref()).is_err());
    assert!(parse_label("/unterminated".as_ref()).is_err());
}
