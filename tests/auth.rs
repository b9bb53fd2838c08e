use xcli::auth::{build_flexible_oauth_header, build_oauth_header, build_signed_header, signature_base_string};
use xcli::config::Config;
use xcli::encode::percent_encode;
use xcli::nonce::{decimal_string, generate_nonce, generate_timestamp};

#[test]
fn percent_encode_unreserved_unchanged() {
    assert_eq!(percent_encode("abc123"), "abc123");
    assert_eq!(percent_encode("a-b_c.d~e"), "a-b_c.d~e");
}

#[test]
fn percent_encode_special_chars() {
    assert_eq!(percent_encode("hello world"), "hello%20world");
    assert_eq!(percent_encode("a&b=c"), "a%26b%3Dc");
    assert_eq!(percent_encode("100%"), "100%25");
}

#[test]
fn percent_encode_single_reserved_chars() {
    assert_eq!(percent_encode(" "), "%20");
    assert_eq!(percent_encode("&"), "%26");
    assert_eq!(percent_encode("="), "%3D");
    assert_eq!(percent_encode("%"), "%25");
}

#[test]
fn percent_encode_non_ascii_bytes() {
    assert_eq!(percent_encode("é"), "%C3%A9");
    assert_eq!(percent_encode("한"), "%ED%95%9C");
    assert_eq!(percent_encode("a+b/c"), "a%2Bb%2Fc");
    assert_eq!(percent_encode(""), "");
}

#[test]
fn percent_encode_twice_on_unreserved_is_stable() {
    let once = percent_encode("Az09-._~");
    assert_eq!(once, "Az09-._~");
    assert_eq!(percent_encode(&once), once);
}

#[test]
fn flexible_header_starts_with_oauth() {
    let header = build_flexible_oauth_header(
        "consumer_key",
        "consumer_secret",
        Some("token"),
        "token_secret",
        "GET",
        "https://api.x.com/2/tweets",
        &[],
    );
    assert!(header.starts_with("OAuth "));
}

#[test]
fn flexible_header_contains_required_params() {
    let header = build_flexible_oauth_header(
        "my_key",
        "my_secret",
        Some("my_token"),
        "my_token_secret",
        "POST",
        "https://api.x.com/2/tweets",
        &[],
    );
    assert!(header.contains("oauth_consumer_key=\"my_key\""));
    assert!(header.contains("oauth_token=\"my_token\""));
    assert!(header.contains("oauth_signature_method=\"HMAC-SHA1\""));
    assert!(header.contains("oauth_version=\"1.0\""));
    assert!(header.contains("oauth_signature="));
    assert!(header.contains("oauth_nonce="));
    assert!(header.contains("oauth_timestamp="));
}

#[test]
fn flexible_header_without_token() {
    let header = build_flexible_oauth_header(
        "my_key",
        "my_secret",
        None,
        "",
        "POST",
        "https://api.x.com/oauth/request_token",
        &[("oauth_callback", "http://localhost:8080/callback")],
    );
    assert!(!header.contains("oauth_token="));
    assert!(header.contains("oauth_callback="));
}

#[test]
fn flexible_header_with_extra_params() {
    let header = build_flexible_oauth_header(
        "key",
        "secret",
        Some("tok"),
        "tok_secret",
        "POST",
        "https://api.x.com/oauth/access_token",
        &[("oauth_verifier", "verifier123")],
    );
    assert!(header.contains("oauth_verifier=\"verifier123\""));
}

#[test]
fn build_oauth_header_wraps_flexible() {
    let config = Config {
        api_key: "ck".to_string(),
        api_secret: "cs".to_string(),
        access_token: "at".to_string(),
        access_token_secret: "ats".to_string(),
    };
    let header = build_oauth_header(&config, "GET", "https://api.x.com/2/tweets");
    assert!(header.starts_with("OAuth "));
    assert!(header.contains("oauth_consumer_key=\"ck\""));
    assert!(header.contains("oauth_token=\"at\""));
}

#[test]
fn golden_base_string_and_signature() {
    let url = "https://api.example.com/2/tweets";
    let base = signature_base_string("ck", Some("tok"), "GET", url, &[], "abc123nonce", "1700000000");
    assert_eq!(
        base,
        "GET&https%3A%2F%2Fapi.example.com%2F2%2Ftweets&oauth_consumer_key%3Dck%26oauth_nonce%3Dabc123nonce%26oauth_signature_method%3DHMAC-SHA1%26oauth_timestamp%3D1700000000%26oauth_token%3Dtok%26oauth_version%3D1.0"
    );
    let first = build_signed_header("ck", "cs", Some("tok"), "sec", "GET", url, &[], "abc123nonce", "1700000000");
    let second = build_signed_header("ck", "cs", Some("tok"), "sec", "GET", url, &[], "abc123nonce", "1700000000");
    assert_eq!(first, second);
    assert_eq!(
        first,
        "OAuth oauth_consumer_key=\"ck\", oauth_nonce=\"abc123nonce\", oauth_signature=\"1hB52v3YfRCk2%2FC9YWsU455OvvY%3D\", oauth_signature_method=\"HMAC-SHA1\", oauth_timestamp=\"1700000000\", oauth_token=\"tok\", oauth_version=\"1.0\""
    );
}

#[test]
fn golden_request_token_header() {
    let header = build_signed_header(
        "my key",
        "s&cret",
        None,
        "",
        "post",
        "https://api.x.com/oauth/request_token",
        &[("oauth_callback", "http://127.0.0.1:18923/callback")],
        "n0nce",
        "42",
    );
    assert_eq!(
        header,
        "OAuth oauth_callback=\"http%3A%2F%2F127.0.0.1%3A18923%2Fcallback\", oauth_consumer_key=\"my%20key\", oauth_nonce=\"n0nce\", oauth_signature=\"4AR%2BYaZdhck9Mm2gjunGrSRecKs%3D\", oauth_signature_method=\"HMAC-SHA1\", oauth_timestamp=\"42\", oauth_version=\"1.0\""
    );
}

#[test]
fn header_fields_once_and_token_presence() {
    let fixed = [
        "oauth_consumer_key=",
        "oauth_nonce=",
        "oauth_signature=",
        "oauth_signature_method=",
        "oauth_timestamp=",
        "oauth_version=",
    ];
    let with = build_signed_header("k", "s", Some("t"), "ts", "GET", "https://a.b/c", &[], "n", "1");
    let without = build_signed_header("k", "s", None, "", "GET", "https://a.b/c", &[], "n", "1");
    for h in [&with, &without] {
        assert!(h.starts_with("OAuth "));
        for name in fixed {
            assert_eq!(h.matches(&format!(" {name}")).count(), 1, "{name} in {h}");
        }
    }
    assert_eq!(with.matches("oauth_token=").count(), 1);
    assert_eq!(without.matches("oauth_token=").count(), 0);
}

#[test]
fn header_entries_sorted_whatever_the_extra_order() {
    let a = build_signed_header("k", "s", None, "", "POST", "https://a.b/c", &[("zeta", "1"), ("alpha", "2")], "n", "1");
    let b = build_signed_header("k", "s", None, "", "POST", "https://a.b/c", &[("alpha", "2"), ("zeta", "1")], "n", "1");
    assert_eq!(a, b);
    let names: Vec<&str> = a["OAuth ".len()..].split(", ").map(|e| e.split('=').next().unwrap()).collect();
    let mut sorted = names.clone();
    sorted.sort();
    assert_eq!(names, sorted);
    assert_eq!(names[0], "alpha");
    assert!(names.iter().position(|n| *n == "oauth_consumer_key").unwrap() < names.iter().position(|n| *n == "oauth_nonce").unwrap());
}

#[test]
fn method_is_upper_cased_in_base_string() {
    let base = signature_base_string("k", None, "delete", "https://a.b/c", &[], "n", "1");
    assert!(base.starts_with("DELETE&https%3A%2F%2Fa.b%2Fc&"));
}

#[test]
fn nonce_shape() {
    let a = generate_nonce();
    assert_eq!(a.chars().count(), 32);
    assert!(a.chars().all(|c| c.is_ascii_digit() || c.is_ascii_lowercase()));
    let b = generate_nonce();
    assert_ne!(a, b);
}

#[test]
fn timestamp_is_decimal_seconds() {
    let t = generate_timestamp();
    assert!(!t.is_empty());
    assert!(t.chars().all(|c| c.is_ascii_digit()));
    assert!(t.parse::<u64>().unwrap() > 1_600_000_000);
}

#[test]
fn decimal_numerals() {
    assert_eq!(decimal_string(0), "0");
    assert_eq!(decimal_string(7), "7");
    assert_eq!(decimal_string(1700000000), "1700000000");
    assert_eq!(decimal_string(u64::MAX), "18446744073709551615");
}
