use vault_hunter::cache::{cache_get, cache_set};
use vault_hunter::error::Error;
use vault_hunter::json::JsonValue;
use vault_hunter::session::{Session, SessionAction};

fn obj(pairs: Vec<(&str, JsonValue)>) -> JsonValue {
    JsonValue::Obj(pairs.into_iter().map(|(k, v)| (String::from(k), v)).collect())
}

fn s(v: &str) -> JsonValue {
    JsonValue::Str(String::from(v))
}

#[test]
fn valid_cached_token_skips_prompt_and_login() {
    let mut session = Session::new();
    let a1 = session.on_cached_token(Some(String::from("tok-cached")));
    match &a1 {
        SessionAction::Validate(t) => assert_eq!(t, "tok-cached"),
        other => panic!("unexpected action: {:?}", action_name(other)),
    }
    // Any clean body proves validity, even one lacking expected fields.
    let a2 = session.on_validation(Some(&obj(vec![])));
    assert!(matches!(a2, SessionAction::Ready));
    assert_eq!(session.token().unwrap(), "tok-cached");
    // Neither step asked for a prompt or stored a token.
    assert!(!matches!(a1, SessionAction::PromptLogin | SessionAction::StoreToken(_)));
    assert!(!matches!(a2, SessionAction::PromptLogin | SessionAction::StoreToken(_)));
}

#[test]
fn failing_validation_falls_back_to_one_login_and_caches_the_token() {
    let mut session = Session::new();
    let a1 = session.on_cached_token(Some(String::from("stale")));
    assert!(matches!(a1, SessionAction::Validate(_)));
    // The validation call failed outright (transport error).
    let a2 = session.on_validation(None);
    assert!(matches!(a2, SessionAction::PromptLogin));
    let body = obj(vec![("auth", obj(vec![("client_token", s("fresh"))]))]);
    let a3 = session.on_login_response(&body);
    match a3 {
        SessionAction::StoreToken(t) => assert_eq!(t, "fresh"),
        other => panic!("unexpected action: {:?}", action_name(&other)),
    }
    assert_eq!(session.token().unwrap(), "fresh");
}

#[test]
fn missing_cache_goes_straight_to_login() {
    let mut session = Session::new();
    let a1 = session.on_cached_token(None);
    assert!(matches!(a1, SessionAction::PromptLogin));
}

#[test]
fn rejected_login_is_terminal() {
    let mut session = Session::new();
    session.on_cached_token(None);
    let body = obj(vec![("errors", JsonValue::Arr(vec![s("bad credentials")]))]);
    match session.on_login_response(&body) {
        SessionAction::Fail(Error::VaultError(m)) => assert_eq!(m, "bad credentials"),
        other => panic!("unexpected action: {:?}", action_name(&other)),
    }
    assert!(session.token().is_none());
}

#[test]
fn logout_of_an_already_revoked_token_succeeds_with_warning() {
    let mut session = Session::new();
    session.on_cached_token(Some(String::from("tok")));
    session.on_validation(Some(&obj(vec![])));
    assert!(session.token().is_some());
    let r = session.on_logout_status(403);
    assert_eq!(r.unwrap(), true);
    assert!(session.token().is_none());
}

#[test]
fn logout_outcomes_by_status() {
    let mut session = Session::new();
    session.on_cached_token(Some(String::from("tok")));
    session.on_validation(Some(&obj(vec![])));
    // A hard failure keeps the token.
    assert!(session.on_logout_status(500).is_err());
    assert!(session.token().is_some());
    // A clean revocation clears it without a warning.
    let r = session.on_logout_status(204);
    assert_eq!(r.unwrap(), false);
    assert!(session.token().is_none());
}

#[test]
fn cache_reads_strings_absence_and_corruption_apart() {
    let c = obj(vec![("token", s("tok")), ("stamp", JsonValue::Null)]);
    assert_eq!(cache_get(&c, "token").unwrap().unwrap(), "tok");
    assert!(cache_get(&c, "missing").unwrap().is_none());
    assert!(matches!(cache_get(&c, "stamp"), Err(Error::RuntimeError(_))));
    // A fresh (empty or non-object) cache has no values.
    assert!(cache_get(&JsonValue::Null, "token").unwrap().is_none());
}

#[test]
fn cache_set_replaces_removes_and_keeps_other_keys() {
    let start = JsonValue::Null;
    let with_token = cache_set(start, "token", Some("t1"));
    assert_eq!(cache_get(&with_token, "token").unwrap().unwrap(), "t1");
    let with_both = cache_set(with_token, "stamp", Some("yesterday"));
    assert_eq!(cache_get(&with_both, "token").unwrap().unwrap(), "t1");
    assert_eq!(cache_get(&with_both, "stamp").unwrap().unwrap(), "yesterday");
    let replaced = cache_set(with_both, "token", Some("t2"));
    assert_eq!(cache_get(&replaced, "token").unwrap().unwrap(), "t2");
    assert_eq!(cache_get(&replaced, "stamp").unwrap().unwrap(), "yesterday");
    let erased = cache_set(replaced, "token", None);
    assert!(cache_get(&erased, "token").unwrap().is_none());
    assert_eq!(cache_get(&erased, "stamp").unwrap().unwrap(), "yesterday");
}

fn action_name(a: &SessionAction) -> &'static str {
    match a {
        SessionAction::Validate(_) => "Validate",
        SessionAction::PromptLogin => "PromptLogin",
        SessionAction::StoreToken(_) => "StoreToken",
        SessionAction::Ready => "Ready",
        SessionAction::Fail(_) => "Fail",
    }
}
