use anime4you::cookie::{Cookie, CookieJar};

fn jar_of(headers: &[&str]) -> CookieJar {
    let hs: Vec<String> = headers.iter().map(|h| h.to_string()).collect();
    CookieJar::parse(&hs).unwrap()
}

#[test]
fn parse_reads_first_pair() {
    let jar = jar_of(&["sid=abc123; path=/; HttpOnly"]);
    assert_eq!(jar.serialize(), "sid=abc123");
}

#[test]
fn fold_is_idempotent() {
    let once = jar_of(&["sid=abc123; path=/"]);
    let twice = jar_of(&["sid=abc123; path=/", "sid=abc123; path=/"]);
    assert_eq!(once.serialize(), twice.serialize());
}

#[test]
fn parse_doubled_headers_equals_parse_once() {
    let hs = ["a=1; x", "b=2; x", "a=3; x"];
    let doubled: Vec<&str> = [&hs[..], &hs[..]].concat();
    assert_eq!(jar_of(&doubled).serialize(), jar_of(&hs).serialize());
}

#[test]
fn duplicate_key_replaces() {
    let jar = jar_of(&["sid=old; path=/", "sid=new; path=/"]);
    assert_eq!(jar.serialize(), "sid=new");
}

#[test]
fn deleted_removes_key() {
    let jar = jar_of(&["sid=abc; path=/", "tok=xyz; path=/", "sid=deleted; path=/"]);
    assert_eq!(jar.serialize(), "tok=xyz");
}

#[test]
fn malformed_header_is_refused() {
    let hs = vec!["no pair here".to_string()];
    assert!(CookieJar::parse(&hs).is_err());
    let hs2 = vec!["key=value without semicolon".to_string()];
    assert!(CookieJar::parse(&hs2).is_err());
}

#[test]
fn serialize_joins_in_insertion_order() {
    let jar = jar_of(&["a=1; x", "b=2; x", "c=3; x"]);
    assert_eq!(jar.serialize(), "a=1; b=2; c=3");
    assert_eq!(CookieJar::new().serialize(), "");
}

#[test]
fn cookie_serialize_is_pair() {
    let c = Cookie { key: "k".to_string(), value: "v".to_string() };
    assert_eq!(c.serialize(), "k=v");
}

#[test]
fn update_folds_other_jar() {
    let mut jar = jar_of(&["a=1; x", "b=2; x"]);
    let other = jar_of(&["b=3; x", "c=4; x"]);
    jar._update(other);
    assert_eq!(jar.serialize(), "a=1; b=3; c=4");
}

#[test]
fn add_cookie_moves_replaced_key_to_end() {
    let mut jar = jar_of(&["a=1; x", "b=2; x"]);
    jar.add_cookie(Cookie { key: "a".to_string(), value: "9".to_string() });
    assert_eq!(jar.serialize(), "b=2; a=9");
}
