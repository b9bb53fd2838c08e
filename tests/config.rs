use xcli::api::{tweet_url, ThreadProgress};
use xcli::config::{
    ApiKeys, Config, Credentials, MISSING_ACCESS_TOKEN, MISSING_ACCESS_TOKEN_SECRET, MISSING_API_KEY, MISSING_API_SECRET,
};

fn s(x: &str) -> Option<String> {
    Some(x.to_string())
}

fn keys(at: Option<String>, ats: Option<String>) -> ApiKeys {
    ApiKeys { api_key: "fk".to_string(), api_secret: "fs".to_string(), access_token: at, access_token_secret: ats }
}

#[test]
fn config_prefers_environment_keys_and_stored_login() {
    let creds = Credentials {
        access_token: "token123".to_string(),
        access_token_secret: "secret456".to_string(),
        screen_name: "testuser".to_string(),
    };
    let c = Config::resolve(s("ek"), s("es"), Some(keys(s("kt"), s("ks"))), Some(creds), s("et"), s("ets")).ok().unwrap();
    assert_eq!((c.api_key.as_str(), c.api_secret.as_str()), ("ek", "es"));
    assert_eq!((c.access_token.as_str(), c.access_token_secret.as_str()), ("token123", "secret456"));
}

#[test]
fn config_falls_back_to_key_file_then_environment_tokens() {
    let c = Config::resolve(None, None, Some(keys(s("kt"), s("ks"))), None, s("et"), s("ets")).ok().unwrap();
    assert_eq!((c.api_key.as_str(), c.access_token.as_str(), c.access_token_secret.as_str()), ("fk", "kt", "ks"));
    let c = Config::resolve(None, None, Some(keys(s("kt"), None)), None, s("et"), s("ets")).ok().unwrap();
    assert_eq!((c.access_token.as_str(), c.access_token_secret.as_str()), ("et", "ets"));
}

#[test]
fn config_reports_what_is_missing() {
    assert_eq!(Config::resolve(None, s("es"), None, None, None, None).err(), s(MISSING_API_KEY));
    assert_eq!(Config::resolve(s("ek"), None, None, None, None, None).err(), s(MISSING_API_SECRET));
    assert_eq!(Config::resolve(s("ek"), s("es"), None, None, None, s("x")).err(), s(MISSING_ACCESS_TOKEN));
    assert_eq!(Config::resolve(s("ek"), s("es"), None, None, s("t"), None).err(), s(MISSING_ACCESS_TOKEN_SECRET));
}

#[test]
fn consumer_keys_prefer_the_key_file() {
    assert_eq!(Config::resolve_consumer(Some(keys(None, None)), s("ek"), s("es")), Ok(("fk".to_string(), "fs".to_string())));
    assert_eq!(Config::resolve_consumer(None, s("ek"), s("es")), Ok(("ek".to_string(), "es".to_string())));
    assert_eq!(Config::resolve_consumer(None, None, s("es")), Err(MISSING_API_KEY.to_string()));
}

#[test]
fn tweet_address() {
    assert_eq!(tweet_url("123"), "https://api.x.com/2/tweets/123");
}

#[test]
fn thread_progress_replies_to_previous_post() {
    let p = ThreadProgress::new(3);
    assert_eq!(p.next_post(), Some((0, None)));
    let p = p.record(Ok("id1".to_string())).ok().unwrap();
    assert_eq!(p.next_post(), Some((1, Some("id1".to_string()))));
    let p = p.record(Ok("id2".to_string())).ok().unwrap();
    assert_eq!(p.next_post(), Some((2, Some("id2".to_string()))));
    let err = p.record(Err("boom".to_string())).err().unwrap();
    assert_eq!(err.posted_ids, vec!["id1", "id2"]);
    assert_eq!(err.failed_index, 2);
    assert_eq!(err.error, "boom");
}

#[test]
fn thread_progress_ends_after_last_post() {
    let p = ThreadProgress::new(1).record(Ok("only".to_string())).ok().unwrap();
    assert_eq!(p.next_post(), None);
    assert_eq!(p.posted_ids, vec!["only"]);
}
