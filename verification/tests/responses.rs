use vault_hunter::error::Error;
use vault_hunter::json::JsonValue;
use vault_hunter::listing::{classify, KeyOrDir};
use vault_hunter::response::{
    first_error, parse_get_response, parse_list_response, parse_login_response,
    parse_lookup_response,
};

fn obj(pairs: Vec<(&str, JsonValue)>) -> JsonValue {
    JsonValue::Obj(pairs.into_iter().map(|(k, v)| (String::from(k), v)).collect())
}

fn s(v: &str) -> JsonValue {
    JsonValue::Str(String::from(v))
}

#[test]
fn classify_splits_on_trailing_separator() {
    assert!(matches!(classify("foo"), KeyOrDir::Key(n) if n == "foo"));
    assert!(matches!(classify("bar/"), KeyOrDir::Dir(n) if n == "bar"));
    assert!(matches!(classify(""), KeyOrDir::Key(n) if n.is_empty()));
    assert!(matches!(classify("/"), KeyOrDir::Dir(n) if n.is_empty()));
}

#[test]
fn listing_partitions_without_loss() {
    let body = obj(vec![(
        "data",
        obj(vec![(
            "keys",
            JsonValue::Arr(vec![s("a/"), s("b"), s("c/"), s("d")]),
        )]),
    )]);
    let entries = parse_list_response(&body).unwrap();
    assert_eq!(entries.len(), 4);
    let dirs: Vec<&String> = entries
        .iter()
        .filter_map(|e| match e {
            KeyOrDir::Dir(n) => Some(n),
            _ => None,
        })
        .collect();
    let keys: Vec<&String> = entries
        .iter()
        .filter_map(|e| match e {
            KeyOrDir::Key(n) => Some(n),
            _ => None,
        })
        .collect();
    assert_eq!(dirs.len() + keys.len(), 4);
    assert_eq!(dirs, vec!["a", "c"]);
    assert_eq!(keys, vec!["b", "d"]);
}

#[test]
fn listing_error_payload_is_store_level() {
    let body = obj(vec![("errors", JsonValue::Arr(vec![s("no such path")]))]);
    match parse_list_response(&body) {
        Err(Error::VaultError(m)) => assert_eq!(m, "no such path"),
        other => panic!("unexpected: {:?}", other),
    }
}

#[test]
fn listing_must_be_an_array_of_strings() {
    let not_a_list = obj(vec![("data", obj(vec![("keys", s("oops"))]))]);
    assert!(matches!(
        parse_list_response(&not_a_list),
        Err(Error::RuntimeError(_))
    ));
    let bad_item = obj(vec![(
        "data",
        obj(vec![("keys", JsonValue::Arr(vec![s("ok"), JsonValue::Null]))]),
    )]);
    assert!(matches!(
        parse_list_response(&bad_item),
        Err(Error::RuntimeError(_))
    ));
}

#[test]
fn first_error_reads_only_a_leading_string() {
    assert!(first_error(&obj(vec![])).is_none());
    assert!(first_error(&obj(vec![("errors", JsonValue::Arr(vec![]))])).is_none());
    assert!(first_error(&obj(vec![("errors", JsonValue::Arr(vec![JsonValue::Null]))])).is_none());
    let e = obj(vec![("errors", JsonValue::Arr(vec![s("denied"), s("more")]))]);
    assert_eq!(first_error(&e).unwrap(), "denied");
}

#[test]
fn login_response_yields_the_issued_token() {
    let body = obj(vec![("auth", obj(vec![("client_token", s("tok-123"))]))]);
    assert_eq!(parse_login_response(&body).unwrap(), "tok-123");
}

#[test]
fn login_error_payload_wins_over_token() {
    let body = obj(vec![
        ("errors", JsonValue::Arr(vec![s("bad password")])),
        ("auth", obj(vec![("client_token", s("tok"))])),
    ]);
    match parse_login_response(&body) {
        Err(Error::VaultError(m)) => assert_eq!(m, "bad password"),
        other => panic!("unexpected: {:?}", other),
    }
}

#[test]
fn login_without_token_is_malformed() {
    assert!(matches!(
        parse_login_response(&obj(vec![])),
        Err(Error::RuntimeError(_))
    ));
    let no_string = obj(vec![("auth", obj(vec![("client_token", JsonValue::Null)]))]);
    assert!(matches!(
        parse_login_response(&no_string),
        Err(Error::RuntimeError(_))
    ));
}

#[test]
fn lookup_accepts_any_clean_body() {
    assert!(parse_lookup_response(&obj(vec![])).is_ok());
    assert!(parse_lookup_response(&JsonValue::Null).is_ok());
    let e = obj(vec![("errors", JsonValue::Arr(vec![s("expired")]))]);
    match parse_lookup_response(&e) {
        Err(Error::VaultError(m)) => assert_eq!(m, "expired"),
        other => panic!("unexpected: {:?}", other),
    }
}

#[test]
fn get_peels_exactly_two_envelopes() {
    let body = obj(vec![(
        "data",
        obj(vec![(
            "data",
            obj(vec![("User", s("u")), ("Password", s("p1"))]),
        )]),
    )]);
    let rec = parse_get_response(&body).unwrap();
    assert_eq!(rec.field("User").unwrap(), "u");
    assert_eq!(rec.field("Password").unwrap(), "p1");
    assert!(rec.field("Missing").is_none());
    // One envelope is not enough.
    let single = obj(vec![("data", obj(vec![("User", s("u"))]))]);
    assert!(matches!(
        parse_get_response(&single),
        Err(Error::RuntimeError(_))
    ));
    // A non-string field value is malformed.
    let bad = obj(vec![(
        "data",
        obj(vec![("data", obj(vec![("User", JsonValue::Null)]))]),
    )]);
    assert!(matches!(parse_get_response(&bad), Err(Error::RuntimeError(_))));
}

#[test]
fn json_lookup_takes_the_first_of_equal_keys() {
    let v = obj(vec![("k", s("first")), ("k", s("second"))]);
    assert_eq!(v.get("k").unwrap().as_str().unwrap(), "first");
}

#[test]
fn json_lookup_walks_objects_and_arrays() {
    let v = obj(vec![
        ("a", JsonValue::Arr(vec![s("x"), s("y")])),
        ("b", s("z")),
    ]);
    assert!(v.get("missing").is_none());
    assert_eq!(v.get("b").unwrap().as_str().unwrap(), "z");
    let arr = v.get("a").unwrap();
    assert_eq!(arr.index(0).unwrap().as_str().unwrap(), "x");
    assert_eq!(arr.index(1).unwrap().as_str().unwrap(), "y");
    assert!(arr.index(2).is_none());
    assert!(s("q").get("a").is_none());
    assert!(JsonValue::Null.as_str().is_none());
}
