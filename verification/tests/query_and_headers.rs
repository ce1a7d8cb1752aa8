use rustmvc::context::header_get;
use rustmvc::context::param_get;
use rustmvc::context::parse_query;

#[test]
fn query_pairs_split_on_ampersand() {
    let ps = parse_query("foo=bar&baz=qux");
    assert_eq!(ps.len(), 2);
    assert_eq!(ps[0], ("foo".to_string(), "bar".to_string()));
    assert_eq!(ps[1], ("baz".to_string(), "qux".to_string()));
}

#[test]
fn later_query_keys_overwrite_earlier_ones() {
    let ps = parse_query("a=1&b=2&a=3");
    assert_eq!(param_get(&ps, "a"), Some("3".to_string()));
    assert_eq!(param_get(&ps, "b"), Some("2".to_string()));
    assert_eq!(param_get(&ps, "c"), None);
}

#[test]
fn query_value_without_equals_is_empty() {
    let ps = parse_query("flag&x=1");
    assert_eq!(ps[0], ("flag".to_string(), "".to_string()));
    assert_eq!(ps[1], ("x".to_string(), "1".to_string()));
}

#[test]
fn empty_query_segments_are_dropped() {
    let ps = parse_query("&&a=1&");
    assert_eq!(ps.len(), 1);
    assert_eq!(ps[0], ("a".to_string(), "1".to_string()));
    assert!(parse_query("").is_empty());
}

#[test]
fn query_values_are_not_percent_decoded() {
    let ps = parse_query("q=a%20b");
    assert_eq!(param_get(&ps, "q"), Some("a%20b".to_string()));
}

#[test]
fn header_lookup_is_case_insensitive_first_wins() {
    let hs = vec![
        ("Content-Type".to_string(), "text/html".to_string()),
        ("AUTHORIZATION".to_string(), "Bearer one".to_string()),
        ("authorization".to_string(), "Bearer two".to_string()),
    ];
    assert_eq!(header_get(&hs, "Authorization"), Some("Bearer one".to_string()));
    assert_eq!(header_get(&hs, "content-type"), Some("text/html".to_string()));
    assert_eq!(header_get(&hs, "Accept"), None);
}
