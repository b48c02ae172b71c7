use memcached::http::{http_get_reply, http_set_reply};
use memcached::{_parse_get_query_params, parse_set_query_params, GetParams, MemKV};

#[test]
fn get_query_needs_key_name() {
    assert_eq!(_parse_get_query_params("key=abc"), Some(GetParams("abc".to_string())));
    assert_eq!(_parse_get_query_params("key=abc=def"), Some(GetParams("abc".to_string())));
    assert_eq!(_parse_get_query_params("kex=abc"), None);
    assert_eq!(_parse_get_query_params("key"), None);
    assert_eq!(_parse_get_query_params(""), None);
}

#[test]
fn set_query_splits_at_first_equals() {
    let p = parse_set_query_params("name=value").unwrap();
    assert_eq!(p.key, "name");
    assert_eq!(p.value, "value");
    let p = parse_set_query_params("a=b=c").unwrap();
    assert_eq!(p.key, "a");
    assert_eq!(p.value, "b");
    let p = parse_set_query_params("=").unwrap();
    assert_eq!(p.key, "");
    assert_eq!(p.value, "");
    assert!(parse_set_query_params("novalue").is_none());
}

#[test]
fn http_replies_follow_the_store() {
    let mut kv = MemKV::new();
    assert_eq!(http_get_reply(&kv, "a"), "NOT FOUND");
    assert_eq!(http_set_reply(&mut kv, "a", "1"), "UPDATED");
    assert_eq!(http_set_reply(&mut kv, "a", "2"), "STORED");
    assert_eq!(http_get_reply(&kv, "a"), "2");
}
