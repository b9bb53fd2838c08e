use xcli::config::Credentials;
use xcli::oauth::{
    parse_callback_request, parse_form_body, read_access_token, read_request_token, AuthError, LoginAction,
    LoginEvent, LoginFlow, LoginState, ACCESS_TOKEN_URL, REQUEST_TOKEN_URL,
};

#[test]
fn parse_form_body_basic() {
    let result = parse_form_body("oauth_token=abc&oauth_token_secret=def&confirmed=true");
    assert_eq!(result.get("oauth_token").unwrap(), "abc");
    assert_eq!(result.get("oauth_token_secret").unwrap(), "def");
    assert_eq!(result.get("confirmed").unwrap(), "true");
}

#[test]
fn parse_form_body_empty() {
    let result = parse_form_body("");
    assert!(result.is_empty());
}

#[test]
fn parse_form_body_single_pair() {
    let result = parse_form_body("key=value");
    assert_eq!(result.len(), 1);
    assert_eq!(result.get("key").unwrap(), "value");
}

#[test]
fn parse_form_body_value_with_equals() {
    let result = parse_form_body("key=val=ue");
    assert_eq!(result.get("key").unwrap(), "val=ue");
}

#[test]
fn parse_form_body_later_value_wins_and_bare_pieces_skipped() {
    let result = parse_form_body("a=1&novalue&&a=2&b=");
    assert_eq!(result.len(), 2);
    assert_eq!(result.get("a").unwrap(), "2");
    assert_eq!(result.get("b").unwrap(), "");
    assert!(result.get("novalue").is_none());
}

#[test]
fn callback_request_parses_token_and_verifier() {
    let r = parse_callback_request("GET /callback?oauth_token=T&oauth_verifier=V HTTP/1.1\r\nHost: localhost\r\n\r\n");
    assert_eq!(r, Ok(("T".to_string(), "V".to_string())));
    let r = parse_callback_request("GET /callback?oauth_token=tok123&oauth_verifier=ver456 HTTP/1.1\r\nHost: localhost\r\n\r\n");
    assert_eq!(r, Ok(("tok123".to_string(), "ver456".to_string())));
}

#[test]
fn callback_request_missing_verifier() {
    let r = parse_callback_request("GET /callback?oauth_token=tok123 HTTP/1.1\r\nHost: localhost\r\n\r\n");
    let e = r.unwrap_err();
    assert_eq!(
        e,
        AuthError::MalformedResponse { field: "oauth_verifier".to_string(), source: "callback".to_string() }
    );
    assert!(e.message().contains("oauth_verifier"));
}

#[test]
fn callback_request_without_query_or_target() {
    assert_eq!(
        parse_callback_request("GET /callback HTTP/1.1\r\n"),
        Err(AuthError::InvalidCallback("No query string in callback".to_string()))
    );
    assert_eq!(parse_callback_request(""), Err(AuthError::InvalidCallback("Invalid HTTP request".to_string())));
    assert_eq!(
        parse_callback_request("GET\r\n/callback?oauth_token=a&oauth_verifier=b"),
        Err(AuthError::InvalidCallback("Invalid HTTP request".to_string()))
    );
    let e = parse_callback_request("GET /callback?oauth_verifier=v HTTP/1.1\r\n").unwrap_err();
    assert_eq!(e.message(), "Missing oauth_token in callback");
}

#[test]
fn request_token_answer() {
    let ok = read_request_token(200, "oauth_token=rt&oauth_token_secret=rs&oauth_callback_confirmed=true".to_string());
    assert_eq!(ok, Ok(("rt".to_string(), "rs".to_string())));
    let e = read_request_token(401, "nope".to_string()).unwrap_err();
    assert_eq!(e.message(), "Request token failed (401): nope");
    let e = read_request_token(200, "oauth_token=rt".to_string()).unwrap_err();
    assert_eq!(e.message(), "Missing oauth_token_secret in response");
}

#[test]
fn access_token_answer() {
    let c = match read_access_token(200, "oauth_token=at&oauth_token_secret=as&user_id=1&screen_name=me".to_string()) {
        Ok(c) => c,
        Err(e) => panic!("{}", e.message()),
    };
    assert_eq!((c.access_token.as_str(), c.access_token_secret.as_str(), c.screen_name.as_str()), ("at", "as", "me"));
    match read_access_token(200, "oauth_token=at&oauth_token_secret=as".to_string()) {
        Err(e) => assert_eq!(e.message(), "Missing screen_name in access response"),
        Ok(_) => panic!("the screen name is missing"),
    }
    match read_access_token(500, "down".to_string()) {
        Err(e) => {
            assert_eq!(e, AuthError::Protocol { step: "Access token".to_string(), status: 500, body: "down".to_string() })
        }
        Ok(_) => panic!("the status is an error"),
    }
}

fn awaiting_flow() -> LoginFlow {
    let flow = LoginFlow::new("ck".to_string(), "cs".to_string());
    let (flow, action) = flow.step(LoginEvent::ListenerBound, "n1", "100");
    match action {
        LoginAction::PostRequestToken { url, authorization } => {
            assert_eq!(url, REQUEST_TOKEN_URL);
            assert!(authorization.contains("oauth_callback=\"http%3A%2F%2F127.0.0.1%3A18923%2Fcallback\""));
            assert!(!authorization.contains("oauth_token="));
        }
        _ => panic!("expected the request-token call"),
    }
    let body = "oauth_token=req&oauth_token_secret=reqsec".to_string();
    let (flow, action) = flow.step(LoginEvent::Response { status: 200, body }, "n2", "101");
    match action {
        LoginAction::OpenAuthorization { url } => assert_eq!(url, "https://api.x.com/oauth/authorize?oauth_token=req"),
        _ => panic!("expected the authorization page"),
    }
    flow
}

#[test]
fn login_flow_completes() {
    let flow = awaiting_flow();
    let event = LoginEvent::CallbackReceived { oauth_token: "req".to_string(), oauth_verifier: "ver".to_string() };
    let (flow, action) = flow.step(event, "n3", "102");
    match action {
        LoginAction::PostAccessToken { url, authorization } => {
            assert_eq!(url, ACCESS_TOKEN_URL);
            assert!(authorization.contains("oauth_token=\"req\""));
            assert!(authorization.contains("oauth_verifier=\"ver\""));
        }
        _ => panic!("expected the access-token call"),
    }
    let body = "oauth_token=at&oauth_token_secret=as&screen_name=someone".to_string();
    let (flow, action) = flow.step(LoginEvent::Response { status: 200, body }, "n4", "103");
    assert!(matches!(action, LoginAction::Stop));
    assert!(flow.is_done());
    match flow.state {
        LoginState::Complete(Credentials { access_token, access_token_secret, screen_name }) => {
            assert_eq!(access_token, "at");
            assert_eq!(access_token_secret, "as");
            assert_eq!(screen_name, "someone");
        }
        _ => panic!("expected a completed login"),
    }
}

#[test]
fn login_flow_token_mismatch_sends_nothing() {
    let flow = awaiting_flow();
    let event = LoginEvent::CallbackReceived { oauth_token: "other".to_string(), oauth_verifier: "ver".to_string() };
    let (flow, action) = flow.step(event, "n3", "102");
    assert!(matches!(action, LoginAction::Stop));
    assert!(matches!(flow.state, LoginState::Failed(AuthError::TokenMismatch)));
}

#[test]
fn login_flow_port_taken_fails_before_any_request() {
    let flow = LoginFlow::new("ck".to_string(), "cs".to_string());
    let msg = "Failed to bind local server on port 18923: address in use".to_string();
    let (flow, action) = flow.step(LoginEvent::ListenerFailed(msg.clone()), "n", "1");
    assert!(matches!(action, LoginAction::Stop));
    match flow.state {
        LoginState::Failed(AuthError::Network(m)) => assert_eq!(m, msg),
        _ => panic!("expected a network error"),
    }
}

#[test]
fn login_flow_request_token_rejected() {
    let flow = LoginFlow::new("ck".to_string(), "cs".to_string());
    let (flow, _) = flow.step(LoginEvent::ListenerBound, "n", "1");
    let (flow, action) = flow.step(LoginEvent::Response { status: 401, body: "bad".to_string() }, "n", "1");
    assert!(matches!(action, LoginAction::Stop));
    match flow.state {
        LoginState::Failed(e) => assert_eq!(e.message(), "Request token failed (401): bad"),
        _ => panic!("expected a failed login"),
    }
}

#[test]
fn login_flow_send_failure_and_stray_event() {
    let flow = LoginFlow::new("ck".to_string(), "cs".to_string());
    let (flow, action) = flow.step(LoginEvent::SendFailed("x".to_string()), "n", "1");
    assert!(matches!(action, LoginAction::Stop));
    assert!(matches!(flow.state, LoginState::Idle));
    let (flow, _) = flow.step(LoginEvent::ListenerBound, "n", "1");
    let (flow, _) = flow.step(LoginEvent::SendFailed("timed out".to_string()), "n", "1");
    match flow.state {
        LoginState::Failed(e) => assert_eq!(e.message(), "Request token request failed: timed out"),
        _ => panic!("expected a failed login"),
    }
}
