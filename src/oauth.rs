//! The three-legged login: form bodies, the browser callback, and the flow's
//! decisions from one step to the next.

use crate::auth::{build_signed_header, distinct_names, extra_view, oauth_header, pairs_view, Pair};
use crate::config::Credentials;
use crate::nonce::{decimal, decimal_string};
use crate::text::{
    chars_of, lemma_split_char_len, push_str, split_char, split_on, split_words, string_of, words,
};
use vstd::prelude::*;

verus! {

broadcast use vstd::string::group_string_axioms;

/// The position of the first `c` in `s`, if any.
pub open spec fn first_index(s: Seq<char>, c: char) -> Option<int>
    decreases s.len(),
{
    if s.len() == 0 {
        None
    } else if s[0] == c {
        Some(0)
    } else {
        match first_index(s.drop_first(), c) {
            Some(i) => Some(i + 1),
            None => None,
        }
    }
}

/// A piece of a form body read as `name=value`, split at the first `=`; a
/// piece without `=` gives nothing.
pub open spec fn form_pair(piece: Seq<char>) -> Option<Pair> {
    match first_index(piece, '=') {
        Some(i) => Some((piece.take(i), piece.skip(i + 1))),
        None => None,
    }
}

/// The pairs that the pieces give, in order.
pub open spec fn form_entries(pieces: Seq<Seq<char>>) -> Seq<Pair>
    decreases pieces.len(),
{
    if pieces.len() == 0 {
        Seq::empty()
    } else {
        let e = form_entries(pieces.drop_last());
        match form_pair(pieces.last()) {
            Some(p) => e.push(p),
            None => e,
        }
    }
}

/// The map that the pairs give when each is stored in turn: a later value for
/// a name replaces an earlier one.
pub open spec fn pairs_map(s: Seq<Pair>) -> Map<Seq<char>, Seq<char>>
    decreases s.len(),
{
    if s.len() == 0 {
        Map::empty()
    } else {
        pairs_map(s.drop_last()).insert(s.last().0, s.last().1)
    }
}

/// What a form-encoded body holds: pieces split on `&`, each split at its
/// first `=`.
pub open spec fn form_map(body: Seq<char>) -> Map<Seq<char>, Seq<char>> {
    pairs_map(form_entries(split_char(body, '&')))
}

proof fn lemma_first_index(s: Seq<char>, c: char, j: int)
    requires
        0 <= j <= s.len(),
        forall|k: int| 0 <= k < j ==> s[k] != c,
    ensures
        j < s.len() && s[j] == c ==> first_index(s, c) == Some(j),
        j == s.len() ==> first_index(s, c) is None,
    decreases j,
{
    if j > 0 {
        lemma_first_index(s.drop_first(), c, j - 1);
    }
}

/// With distinct names, the map holds exactly the names of the list, each
/// with its own value, and has as many entries as the list.
proof fn lemma_pairs_map(s: Seq<Pair>)
    requires
        distinct_names(s),
    ensures
        forall|k: Seq<char>|
            pairs_map(s).contains_key(k) <==> exists|i: int| 0 <= i < s.len() && (#[trigger] s[i]).0 == k,
        forall|i: int| 0 <= i < s.len() ==> pairs_map(s)[(#[trigger] s[i]).0] == s[i].1,
        pairs_map(s).dom().finite(),
        pairs_map(s).dom().len() == s.len(),
    decreases s.len(),
{
    if s.len() > 0 {
        let t = s.drop_last();
        assert(distinct_names(t));
        lemma_pairs_map(t);
        let last = s.last();
        assert forall|i: int| 0 <= i < s.len() implies pairs_map(s).contains_key(#[trigger] s[i].0) by {
            if i < s.len() - 1 {
                assert(t[i] == s[i]);
            }
        }
        assert forall|k: Seq<char>|
            pairs_map(s).contains_key(k) implies exists|i: int| 0 <= i < s.len() && (#[trigger] s[i]).0 == k by {
            if k != last.0 {
                let i = choose|i: int| 0 <= i < t.len() && (#[trigger] t[i]).0 == k;
                assert(s[i] == t[i]);
            } else {
                assert(s[s.len() - 1] == last);
            }
        }
        assert forall|i: int| 0 <= i < s.len() implies pairs_map(s)[(#[trigger] s[i]).0] == s[i].1 by {
            if i < s.len() - 1 {
                assert(t[i] == s[i]);
                assert(s[i].0 != last.0);
            }
        }
        assert(!pairs_map(t).contains_key(last.0)) by {
            if pairs_map(t).contains_key(last.0) {
                let i = choose|i: int| 0 <= i < t.len() && (#[trigger] t[i]).0 == last.0;
                assert(s[i] == t[i]);
            }
        }
    }
}

/// A form-encoded body read into a map from name to value.
pub struct FormParams {
    entries: Vec<(String, String)>,
}

impl View for FormParams {
    type V = Map<Seq<char>, Seq<char>>;

    closed spec fn view(&self) -> Map<Seq<char>, Seq<char>> {
        pairs_map(pairs_view(self.entries@))
    }
}

impl FormParams {
    /// Each name is held once.
    pub closed spec fn wf(&self) -> bool {
        distinct_names(pairs_view(self.entries@))
    }

    /// An empty map.
    pub fn new() -> (r: FormParams)
        ensures
            r.wf(),
            r@ == Map::<Seq<char>, Seq<char>>::empty(),
    {
        let r = FormParams { entries: Vec::new() };
        assert(r.entries@.map_values(|p: (String, String)| (p.0@, p.1@)) =~= Seq::<Pair>::empty());
        r
    }

    /// Where `name` is held, if it is.
    fn position(&self, name: &String) -> (r: Option<usize>)
        requires
            self.wf(),
        ensures
            match r {
                Some(i) => i < self.entries@.len() && self.entries@[i as int].0@ == name@,
                None => forall|i: int| 0 <= i < self.entries@.len() ==> self.entries@[i].0@ != name@,
            },
    {
        let mut i: usize = 0;
        while i < self.entries.len()
            invariant
                i <= self.entries@.len(),
                forall|k: int| 0 <= k < i ==> self.entries@[k].0@ != name@,
            decreases self.entries@.len() - i,
        {
            if self.entries[i].0 == *name {
                return Some(i);
            }
            i = i + 1;
        }
        None
    }

    /// Stores `value` under `name`, replacing an earlier value.
    pub fn insert(&mut self, name: String, value: String)
        requires
            old(self).wf(),
        ensures
            final(self).wf(),
            final(self)@ == old(self)@.insert(name@, value@),
    {
        let ghost before = pairs_view(self.entries@);
        proof {
            lemma_pairs_map(before);
        }
        let ghost pair = (name@, value@);
        match self.position(&name) {
            Some(i) => {
                self.entries.set(i, (name, value));
                proof {
                    let after = pairs_view(self.entries@);
                    assert(after =~= before.update(i as int, pair));
                    assert forall|j: int| 0 <= j < after.len() implies (#[trigger] after[j]).0 == before[j].0 by {}
                    assert(distinct_names(after));
                    lemma_pairs_map(after);
                    assert(before[i as int].0 == pair.0);
                    assert(after[i as int] == pair);
                    assert(pairs_map(before).contains_key(before[i as int].0));
                    assert(pairs_map(after).contains_key(after[i as int].0));
                    assert forall|k: Seq<char>| #[trigger] pairs_map(after).contains_key(k) == pairs_map(before).insert(pair.0, pair.1).contains_key(k) by {
                        if pairs_map(after).contains_key(k) {
                            let j = choose|j: int| 0 <= j < after.len() && (#[trigger] after[j]).0 == k;
                            assert(before[j].0 == k);
                        }
                        if pairs_map(before).contains_key(k) {
                            let j = choose|j: int| 0 <= j < before.len() && (#[trigger] before[j]).0 == k;
                            assert(after[j].0 == k);
                        }
                    }
                    assert forall|k: Seq<char>| #[trigger] pairs_map(after).contains_key(k) implies pairs_map(after)[k] == pairs_map(before).insert(pair.0, pair.1)[k] by {
                        let j = choose|j: int| 0 <= j < after.len() && (#[trigger] after[j]).0 == k;
                        if j != i {
                            if j < i {
                                assert(after[j].0 != after[i as int].0);
                            } else {
                                assert(after[i as int].0 != after[j].0);
                            }
                            assert(before[j] == after[j]);
                        } else {
                            assert(after[j] == pair);
                        }
                    }
                    assert(pairs_map(after) =~= pairs_map(before).insert(pair.0, pair.1));
                }
            },
            None => {
                self.entries.push((name, value));
                proof {
                    let after = pairs_view(self.entries@);
                    assert(after =~= before.push(pair));
                    assert(after.drop_last() =~= before);
                    assert(distinct_names(after));
                }
            },
        }
    }

    /// The value stored under `name`.
    pub fn get(&self, name: &str) -> (r: Option<&String>)
        requires
            self.wf(),
        ensures
            match r {
                Some(v) => self@.contains_key(name@) && v@ == self@[name@],
                None => !self@.contains_key(name@),
            },
    {
        proof {
            lemma_pairs_map(pairs_view(self.entries@));
        }
        let owned = name.to_owned();
        match self.position(&owned) {
            Some(i) => {
                assert(pairs_view(self.entries@)[i as int].0 == name@);
                Some(&self.entries[i].1)
            },
            None => {
                assert(!self@.contains_key(name@)) by {
                    if self@.contains_key(name@) {
                        let ps = pairs_view(self.entries@);
                        let j = choose|j: int| 0 <= j < ps.len() && (#[trigger] ps[j]).0 == name@;
                        assert(self.entries@[j].0@ == name@);
                    }
                }
                None
            },
        }
    }

    /// How many names are stored.
    pub fn len(&self) -> (r: usize)
        requires
            self.wf(),
        ensures
            r == self@.dom().len(),
    {
        proof {
            lemma_pairs_map(pairs_view(self.entries@));
        }
        self.entries.len()
    }

    /// Whether nothing is stored.
    pub fn is_empty(&self) -> (r: bool)
        requires
            self.wf(),
        ensures
            r == (self@.dom().len() == 0),
    {
        self.len() == 0
    }
}

/// Reads a form-encoded body: pieces split on `&`, each split at its first
/// `=` (the value may hold more `=`); pieces without `=` are skipped, and a
/// later value for a name replaces an earlier one.
pub fn parse_form_body(body: &str) -> (r: FormParams)
    ensures
        r.wf(),
        r@ == form_map(body@),
{
    let pieces = split_on(body, '&');
    let ghost ps = pieces@.map_values(|p: String| p@);
    let mut params = FormParams::new();
    let mut i: usize = 0;
    while i < pieces.len()
        invariant
            i <= pieces@.len(),
            ps == pieces@.map_values(|p: String| p@),
            params.wf(),
            params@ == pairs_map(form_entries(ps.take(i as int))),
        decreases pieces@.len() - i,
    {
        let v = chars_of(pieces[i].as_str());
        let mut j: usize = 0;
        while j < v.len() && v[j] != '='
            invariant
                j <= v@.len(),
                forall|k: int| 0 <= k < j ==> v@[k] != '=',
            decreases v@.len() - j,
        {
            j = j + 1;
        }
        proof {
            lemma_first_index(v@, '=', j as int);
            assert(ps.take(i as int + 1).drop_last() =~= ps.take(i as int));
            assert(ps.take(i as int + 1).last() == v@);
        }
        if j < v.len() {
            let name = string_of(&v, 0, j);
            let value = string_of(&v, j + 1, v.len());
            assert(name@ =~= v@.take(j as int));
            assert(value@ =~= v@.skip(j as int + 1));
            params.insert(name, value);
            proof {
                let e = form_entries(ps.take(i as int));
                let p = (v@.take(j as int), v@.skip(j as int + 1));
                assert(form_entries(ps.take(i as int + 1)) == e.push(p));
                assert(e.push(p).drop_last() =~= e);
            }
        }
        i = i + 1;
    }
    assert(ps.take(ps.len() as int) =~= ps);
    params
}

/// Why a login did not complete.
#[derive(Debug, PartialEq, Eq)]
pub enum AuthError {
    /// The transport failed, or the local listener could not bind or accept.
    Network(String),
    /// The remote service answered a step with a status outside 200-299.
    Protocol { step: String, status: u16, body: String },
    /// A form-encoded answer lacked a field; names the field and the answer.
    MalformedResponse { field: String, source: String },
    /// The browser came back with another token than the one requested.
    TokenMismatch,
    /// The browser's request to the listener could not be read.
    InvalidCallback(String),
}

/// An error as the contracts see it.
pub enum ErrorView {
    Network(Seq<char>),
    Protocol(Seq<char>, u16, Seq<char>),
    MalformedResponse(Seq<char>, Seq<char>),
    TokenMismatch,
    InvalidCallback(Seq<char>),
}

impl View for AuthError {
    type V = ErrorView;

    open spec fn view(&self) -> ErrorView {
        match self {
            AuthError::Network(m) => ErrorView::Network(m@),
            AuthError::Protocol { step, status, body } => ErrorView::Protocol(step@, *status, body@),
            AuthError::MalformedResponse { field, source } => ErrorView::MalformedResponse(
                field@,
                source@,
            ),
            AuthError::TokenMismatch => ErrorView::TokenMismatch,
            AuthError::InvalidCallback(m) => ErrorView::InvalidCallback(m@),
        }
    }
}

/// The text of an error.
pub open spec fn error_text(e: ErrorView) -> Seq<char> {
    match e {
        ErrorView::Network(m) => m,
        ErrorView::Protocol(step, status, body) => step + " failed ("@ + decimal(status as nat) + "): "@
            + body,
        ErrorView::MalformedResponse(field, source) => "Missing "@ + field + " in "@ + source,
        ErrorView::TokenMismatch => "OAuth token mismatch"@,
        ErrorView::InvalidCallback(m) => m,
    }
}

impl AuthError {
    /// A readable message for the error.
    pub fn message(&self) -> (r: String)
        ensures
            r@ == error_text(self@),
    {
        match self {
            AuthError::Network(m) => m.clone(),
            AuthError::Protocol { step, status, body } => {
                let mut r = step.clone();
                push_str(&mut r, " failed (");
                let code = decimal_string(*status as u64);
                push_str(&mut r, code.as_str());
                push_str(&mut r, "): ");
                push_str(&mut r, body.as_str());
                r
            },
            AuthError::MalformedResponse { field, source } => {
                let mut r = "Missing ".to_owned();
                push_str(&mut r, field.as_str());
                push_str(&mut r, " in ");
                push_str(&mut r, source.as_str());
                r
            },
            AuthError::TokenMismatch => "OAuth token mismatch".to_owned(),
            AuthError::InvalidCallback(m) => m.clone(),
        }
    }
}

/// The request target of an HTTP request: the second word of its first line
/// (a `\r` before the line break is white space and falls away).
pub open spec fn request_target(request: Seq<char>) -> Option<Seq<char>> {
    let w = words(split_char(request, '\n')[0]);
    if w.len() >= 2 {
        Some(w[1])
    } else {
        None
    }
}

/// What the browser's request to the listener yields: the `oauth_token` and
/// `oauth_verifier` of the query string, the part of the target between its
/// first and second `?`.
pub open spec fn callback_outcome(request: Seq<char>) -> Result<(Seq<char>, Seq<char>), ErrorView> {
    match request_target(request) {
        None => Err(ErrorView::InvalidCallback("Invalid HTTP request"@)),
        Some(t) => {
            let q = split_char(t, '?');
            if q.len() < 2 {
                Err(ErrorView::InvalidCallback("No query string in callback"@))
            } else {
                let m = form_map(q[1]);
                if !m.contains_key("oauth_token"@) {
                    Err(ErrorView::MalformedResponse("oauth_token"@, "callback"@))
                } else if !m.contains_key("oauth_verifier"@) {
                    Err(ErrorView::MalformedResponse("oauth_verifier"@, "callback"@))
                } else {
                    Ok((m["oauth_token"@], m["oauth_verifier"@]))
                }
            }
        }
    }
}

/// Reads the browser's request to the listener: the `oauth_token` and
/// `oauth_verifier` of its query string, or why they cannot be had.
pub fn parse_callback_request(request: &str) -> (r: Result<(String, String), AuthError>)
    ensures
        match r {
            Ok(p) => callback_outcome(request@) == Ok::<_, ErrorView>((p.0@, p.1@)),
            Err(e) => callback_outcome(request@) == Err::<(Seq<char>, Seq<char>), _>(e@),
        },
{
    let lines = split_on(request, '\n');
    proof {
        lemma_split_char_len(request@, '\n');
    }
    let first = split_words(lines[0].as_str());
    if first.len() < 2 {
        return Err(AuthError::InvalidCallback("Invalid HTTP request".to_owned()));
    }
    let parts = split_on(first[1].as_str(), '?');
    if parts.len() < 2 {
        return Err(AuthError::InvalidCallback("No query string in callback".to_owned()));
    }
    let params = parse_form_body(parts[1].as_str());
    let token = match params.get("oauth_token") {
        Some(t) => t.clone(),
        None => {
            return Err(
                AuthError::MalformedResponse {
                    field: "oauth_token".to_owned(),
                    source: "callback".to_owned(),
                },
            )
        },
    };
    let verifier = match params.get("oauth_verifier") {
        Some(v) => v.clone(),
        None => {
            return Err(
                AuthError::MalformedResponse {
                    field: "oauth_verifier".to_owned(),
                    source: "callback".to_owned(),
                },
            )
        },
    };
    Ok((token, verifier))
}

/// Where the request token is asked for.
pub const REQUEST_TOKEN_URL: &'static str = "https://api.x.com/oauth/request_token";

/// Where the user authorizes the request token.
pub const AUTHORIZE_URL: &'static str = "https://api.x.com/oauth/authorize";

/// Where the authorized token is exchanged for an access token.
pub const ACCESS_TOKEN_URL: &'static str = "https://api.x.com/oauth/access_token";

/// The local port that the browser is sent back to.
pub const CALLBACK_PORT: u16 = 18923;

/// The address that the browser is sent back to.
pub const CALLBACK_URL: &'static str = "http://127.0.0.1:18923/callback";

/// A status of the 2xx class.
pub open spec fn is_success(status: u16) -> bool {
    200 <= status <= 299
}

/// What the answer to the request-token step yields: the request token and
/// its secret, or why not.
pub open spec fn request_token_outcome(status: u16, body: Seq<char>) -> Result<
    (Seq<char>, Seq<char>),
    ErrorView,
> {
    let m = form_map(body);
    if !is_success(status) {
        Err(ErrorView::Protocol("Request token"@, status, body))
    } else if !m.contains_key("oauth_token"@) {
        Err(ErrorView::MalformedResponse("oauth_token"@, "response"@))
    } else if !m.contains_key("oauth_token_secret"@) {
        Err(ErrorView::MalformedResponse("oauth_token_secret"@, "response"@))
    } else {
        Ok((m["oauth_token"@], m["oauth_token_secret"@]))
    }
}

/// What the answer to the access-token step yields: the access token, its
/// secret and the account's screen name, or why not.
pub open spec fn access_token_outcome(status: u16, body: Seq<char>) -> Result<
    (Seq<char>, Seq<char>, Seq<char>),
    ErrorView,
> {
    let m = form_map(body);
    if !is_success(status) {
        Err(ErrorView::Protocol("Access token"@, status, body))
    } else if !m.contains_key("oauth_token"@) {
        Err(ErrorView::MalformedResponse("oauth_token"@, "access response"@))
    } else if !m.contains_key("oauth_token_secret"@) {
        Err(ErrorView::MalformedResponse("oauth_token_secret"@, "access response"@))
    } else if !m.contains_key("screen_name"@) {
        Err(ErrorView::MalformedResponse("screen_name"@, "access response"@))
    } else {
        Ok((m["oauth_token"@], m["oauth_token_secret"@], m["screen_name"@]))
    }
}

/// Where a login stands.
pub enum LoginState {
    /// Nothing done yet; the listener is being bound.
    Idle,
    /// The request-token call is out.
    RequestingToken,
    /// The user is authorizing the request token in the browser.
    AwaitingAuthorization { request_token: String, request_token_secret: String },
    /// The access-token call is out.
    ExchangingToken,
    /// The login is done.
    Complete(Credentials),
    /// The login failed; a new login must start over.
    Failed(AuthError),
}

/// What the outside world reports to the flow.
pub enum LoginEvent {
    /// The local listener is bound.
    ListenerBound,
    /// The local listener could not be bound.
    ListenerFailed(String),
    /// The call that is out could not be sent or answered.
    SendFailed(String),
    /// The call that is out was answered.
    Response { status: u16, body: String },
    /// The browser came back with these values.
    CallbackReceived { oauth_token: String, oauth_verifier: String },
    /// The browser's request could not be had or read.
    CallbackFailed(AuthError),
}

/// What the flow asks the outside world to do next.
pub enum LoginAction {
    /// Send a signed POST to the request-token endpoint.
    PostRequestToken { url: String, authorization: String },
    /// Show the user this authorization page, then wait for the callback.
    OpenAuthorization { url: String },
    /// Send a signed POST to the access-token endpoint.
    PostAccessToken { url: String, authorization: String },
    /// Nothing more: the flow has completed or failed.
    Stop,
}

/// The three-legged login as a state machine: `step` takes what happened and
/// says what to do next.
pub struct LoginFlow {
    pub consumer_key: String,
    pub consumer_secret: String,
    pub state: LoginState,
}

/// The login has failed with this error.
pub open spec fn failed_with(state: LoginState, e: ErrorView) -> bool {
    state matches LoginState::Failed(x) && x@ == e
}

/// The request for a request token: a signed POST that carries the callback
/// address, with no token and an empty token secret.
pub open spec fn request_token_header(
    consumer_key: Seq<char>,
    consumer_secret: Seq<char>,
    nonce: Seq<char>,
    timestamp: Seq<char>,
) -> Seq<char> {
    oauth_header(
        consumer_key,
        consumer_secret,
        None,
        Seq::empty(),
        "POST"@,
        REQUEST_TOKEN_URL@,
        seq![("oauth_callback"@, CALLBACK_URL@)],
        nonce,
        timestamp,
    )
}

/// The request for an access token: a signed POST with the request token and
/// its secret, carrying the verifier.
pub open spec fn access_token_header(
    consumer_key: Seq<char>,
    consumer_secret: Seq<char>,
    request_token: Seq<char>,
    request_token_secret: Seq<char>,
    verifier: Seq<char>,
    nonce: Seq<char>,
    timestamp: Seq<char>,
) -> Seq<char> {
    oauth_header(
        consumer_key,
        consumer_secret,
        Some(request_token),
        request_token_secret,
        "POST"@,
        ACCESS_TOKEN_URL@,
        seq![("oauth_verifier"@, verifier)],
        nonce,
        timestamp,
    )
}

/// A step from `Idle`: a listener that could not bind fails the login with a
/// network error before any request; a bound one sends the request-token call.
pub open spec fn idle_step(
    consumer_key: Seq<char>,
    consumer_secret: Seq<char>,
    event: LoginEvent,
    nonce: Seq<char>,
    timestamp: Seq<char>,
    state: LoginState,
    action: LoginAction,
) -> bool {
    match event {
        LoginEvent::ListenerFailed(m) => failed_with(state, ErrorView::Network(m@)) && action is Stop,
        LoginEvent::ListenerBound => {
            &&& state is RequestingToken
            &&& action matches LoginAction::PostRequestToken { url, authorization }
            &&& url@ == REQUEST_TOKEN_URL@
            &&& authorization@ == request_token_header(consumer_key, consumer_secret, nonce, timestamp)
        },
        _ => state is Idle && action is Stop,
    }
}

/// A step from `RequestingToken`: the answer either fails the login or gives
/// the request token, whose authorization page is then shown.
pub open spec fn requesting_step(event: LoginEvent, state: LoginState, action: LoginAction) -> bool {
    match event {
        LoginEvent::SendFailed(m) => {
            &&& failed_with(state, ErrorView::Network("Request token request failed: "@ + m@))
            &&& action is Stop
        },
        LoginEvent::Response { status, body } => match request_token_outcome(status, body@) {
            Err(e) => failed_with(state, e) && action is Stop,
            Ok((t, ts)) => {
                &&& state matches LoginState::AwaitingAuthorization { request_token, request_token_secret }
                &&& request_token@ == t
                &&& request_token_secret@ == ts
                &&& action matches LoginAction::OpenAuthorization { url }
                &&& url@ == AUTHORIZE_URL@ + "?oauth_token="@ + t
            },
        },
        _ => state is RequestingToken && action is Stop,
    }
}

/// A step from `AwaitingAuthorization`: a callback with another token fails
/// the login and sends nothing; one with the requested token sends the
/// access-token call.
pub open spec fn awaiting_step(
    consumer_key: Seq<char>,
    consumer_secret: Seq<char>,
    request_token: String,
    request_token_secret: String,
    event: LoginEvent,
    nonce: Seq<char>,
    timestamp: Seq<char>,
    state: LoginState,
    action: LoginAction,
) -> bool {
    match event {
        LoginEvent::CallbackFailed(e) => failed_with(state, e@) && action is Stop,
        LoginEvent::CallbackReceived { oauth_token, oauth_verifier } => {
            if oauth_token@ != request_token@ {
                failed_with(state, ErrorView::TokenMismatch) && action is Stop
            } else {
                &&& state is ExchangingToken
                &&& action matches LoginAction::PostAccessToken { url, authorization }
                &&& url@ == ACCESS_TOKEN_URL@
                &&& authorization@ == access_token_header(
                    consumer_key,
                    consumer_secret,
                    request_token@,
                    request_token_secret@,
                    oauth_verifier@,
                    nonce,
                    timestamp,
                )
            }
        },
        _ => {
            &&& state == LoginState::AwaitingAuthorization { request_token, request_token_secret }
            &&& action is Stop
        },
    }
}

/// A step from `ExchangingToken`: the answer either fails the login or
/// completes it with the credentials it holds.
pub open spec fn exchanging_step(event: LoginEvent, state: LoginState, action: LoginAction) -> bool {
    match event {
        LoginEvent::SendFailed(m) => {
            &&& failed_with(state, ErrorView::Network("Access token request failed: "@ + m@))
            &&& action is Stop
        },
        LoginEvent::Response { status, body } => match access_token_outcome(status, body@) {
            Err(e) => failed_with(state, e) && action is Stop,
            Ok((t, ts, name)) => {
                &&& state matches LoginState::Complete(c)
                &&& c.access_token@ == t
                &&& c.access_token_secret@ == ts
                &&& c.screen_name@ == name
                &&& action is Stop
            },
        },
        _ => state is ExchangingToken && action is Stop,
    }
}

/// One step of the login from `from` on `event`, to `state` with `action`.
/// A completed or failed login stays as it is.
pub open spec fn login_step(
    consumer_key: Seq<char>,
    consumer_secret: Seq<char>,
    from: LoginState,
    event: LoginEvent,
    nonce: Seq<char>,
    timestamp: Seq<char>,
    state: LoginState,
    action: LoginAction,
) -> bool {
    match from {
        LoginState::Idle => idle_step(consumer_key, consumer_secret, event, nonce, timestamp, state, action),
        LoginState::RequestingToken => requesting_step(event, state, action),
        LoginState::AwaitingAuthorization { request_token, request_token_secret } => awaiting_step(
            consumer_key,
            consumer_secret,
            request_token,
            request_token_secret,
            event,
            nonce,
            timestamp,
            state,
            action,
        ),
        LoginState::ExchangingToken => exchanging_step(event, state, action),
        _ => state == from && action is Stop,
    }
}

impl LoginFlow {
    /// A login for the application with this key and secret.
    pub fn new(consumer_key: String, consumer_secret: String) -> (r: LoginFlow)
        ensures
            r.consumer_key == consumer_key,
            r.consumer_secret == consumer_secret,
            r.state is Idle,
    {
        LoginFlow { consumer_key, consumer_secret, state: LoginState::Idle }
    }

    /// Whether the flow has completed or failed.
    pub fn is_done(&self) -> (r: bool)
        ensures
            r == (self.state is Complete || self.state is Failed),
    {
        match self.state {
            LoginState::Complete(_) | LoginState::Failed(_) => true,
            _ => false,
        }
    }

    /// One step of the login.  Requests are signed with the nonce and
    /// timestamp given.
    pub fn step(self, event: LoginEvent, nonce: &str, timestamp: &str) -> (r: (LoginFlow, LoginAction))
        ensures
            r.0.consumer_key == self.consumer_key,
            r.0.consumer_secret == self.consumer_secret,
            login_step(
                self.consumer_key@,
                self.consumer_secret@,
                self.state,
                event,
                nonce@,
                timestamp@,
                r.0.state,
                r.1,
            ),
    {
        let LoginFlow { consumer_key, consumer_secret, state } = self;
        let (state, action) = match state {
            LoginState::Idle => step_idle(&consumer_key, &consumer_secret, event, nonce, timestamp),
            LoginState::RequestingToken => step_requesting(event),
            LoginState::AwaitingAuthorization { request_token, request_token_secret } => step_awaiting(
                &consumer_key,
                &consumer_secret,
                request_token,
                request_token_secret,
                event,
                nonce,
                timestamp,
            ),
            LoginState::ExchangingToken => step_exchanging(event),
            done => (done, LoginAction::Stop),
        };
        (LoginFlow { consumer_key, consumer_secret, state }, action)
    }
}

fn step_idle(
    consumer_key: &String,
    consumer_secret: &String,
    event: LoginEvent,
    nonce: &str,
    timestamp: &str,
) -> (r: (LoginState, LoginAction))
    ensures
        idle_step(consumer_key@, consumer_secret@, event, nonce@, timestamp@, r.0, r.1),
{
    match event {
        LoginEvent::ListenerFailed(m) => (LoginState::Failed(AuthError::Network(m)), LoginAction::Stop),
        LoginEvent::ListenerBound => {
            let callback: [(&str, &str); 1] = [("oauth_callback", CALLBACK_URL)];
            let authorization = build_signed_header(
                consumer_key.as_str(),
                consumer_secret.as_str(),
                None,
                "",
                "POST",
                REQUEST_TOKEN_URL,
                callback.as_slice(),
                nonce,
                timestamp,
            );
            assert(extra_view(callback@) =~= seq![("oauth_callback"@, CALLBACK_URL@)]);
            proof {
                reveal_strlit("");
            }
            assert(""@ =~= Seq::<char>::empty());
            let action = LoginAction::PostRequestToken { url: REQUEST_TOKEN_URL.to_owned(), authorization };
            (LoginState::RequestingToken, action)
        },
        _ => (LoginState::Idle, LoginAction::Stop),
    }
}

fn step_requesting(event: LoginEvent) -> (r: (LoginState, LoginAction))
    ensures
        requesting_step(event, r.0, r.1),
{
    match event {
        LoginEvent::SendFailed(m) => {
            let mut msg = "Request token request failed: ".to_owned();
            push_str(&mut msg, m.as_str());
            (LoginState::Failed(AuthError::Network(msg)), LoginAction::Stop)
        },
        LoginEvent::Response { status, body } => match read_request_token(status, body) {
            Ok((request_token, request_token_secret)) => {
                let mut url = AUTHORIZE_URL.to_owned();
                push_str(&mut url, "?oauth_token=");
                push_str(&mut url, request_token.as_str());
                let state = LoginState::AwaitingAuthorization { request_token, request_token_secret };
                (state, LoginAction::OpenAuthorization { url })
            },
            Err(e) => (LoginState::Failed(e), LoginAction::Stop),
        },
        _ => (LoginState::RequestingToken, LoginAction::Stop),
    }
}

fn step_awaiting(
    consumer_key: &String,
    consumer_secret: &String,
    request_token: String,
    request_token_secret: String,
    event: LoginEvent,
    nonce: &str,
    timestamp: &str,
) -> (r: (LoginState, LoginAction))
    ensures
        awaiting_step(
            consumer_key@,
            consumer_secret@,
            request_token,
            request_token_secret,
            event,
            nonce@,
            timestamp@,
            r.0,
            r.1,
        ),
{
    match event {
        LoginEvent::CallbackFailed(e) => (LoginState::Failed(e), LoginAction::Stop),
        LoginEvent::CallbackReceived { oauth_token, oauth_verifier } => {
            if oauth_token != request_token {
                (LoginState::Failed(AuthError::TokenMismatch), LoginAction::Stop)
            } else {
                let verifier: [(&str, &str); 1] = [("oauth_verifier", oauth_verifier.as_str())];
                let authorization = build_signed_header(
                    consumer_key.as_str(),
                    consumer_secret.as_str(),
                    Some(request_token.as_str()),
                    request_token_secret.as_str(),
                    "POST",
                    ACCESS_TOKEN_URL,
                    verifier.as_slice(),
                    nonce,
                    timestamp,
                );
                assert(extra_view(verifier@) =~= seq![("oauth_verifier"@, oauth_verifier@)]);
                let action = LoginAction::PostAccessToken { url: ACCESS_TOKEN_URL.to_owned(), authorization };
                (LoginState::ExchangingToken, action)
            }
        },
        _ => (LoginState::AwaitingAuthorization { request_token, request_token_secret }, LoginAction::Stop),
    }
}

fn step_exchanging(event: LoginEvent) -> (r: (LoginState, LoginAction))
    ensures
        exchanging_step(event, r.0, r.1),
{
    match event {
        LoginEvent::SendFailed(m) => {
            let mut msg = "Access token request failed: ".to_owned();
            push_str(&mut msg, m.as_str());
            (LoginState::Failed(AuthError::Network(msg)), LoginAction::Stop)
        },
        LoginEvent::Response { status, body } => match read_access_token(status, body) {
            Ok(c) => (LoginState::Complete(c), LoginAction::Stop),
            Err(e) => (LoginState::Failed(e), LoginAction::Stop),
        },
        _ => (LoginState::ExchangingToken, LoginAction::Stop),
    }
}

/// The field `name` of a form map, or the error naming it.
fn required_field(params: &FormParams, name: &str, source: &str) -> (r: Result<String, AuthError>)
    requires
        params.wf(),
    ensures
        match r {
            Ok(v) => params@.contains_key(name@) && v@ == params@[name@],
            Err(e) => !params@.contains_key(name@) && e@ == ErrorView::MalformedResponse(name@, source@),
        },
{
    match params.get(name) {
        Some(v) => Ok(v.clone()),
        None => Err(AuthError::MalformedResponse { field: name.to_owned(), source: source.to_owned() }),
    }
}

/// Reads the answer to the request-token step.
pub fn read_request_token(status: u16, body: String) -> (r: Result<(String, String), AuthError>)
    ensures
        match r {
            Ok(p) => request_token_outcome(status, body@) == Ok::<_, ErrorView>((p.0@, p.1@)),
            Err(e) => request_token_outcome(status, body@) == Err::<(Seq<char>, Seq<char>), _>(e@),
        },
{
    if status < 200 || status > 299 {
        return Err(AuthError::Protocol { step: "Request token".to_owned(), status, body });
    }
    let params = parse_form_body(body.as_str());
    let token = match required_field(&params, "oauth_token", "response") {
        Ok(t) => t,
        Err(e) => return Err(e),
    };
    let secret = match required_field(&params, "oauth_token_secret", "response") {
        Ok(t) => t,
        Err(e) => return Err(e),
    };
    Ok((token, secret))
}

/// Reads the answer to the access-token step.
pub fn read_access_token(status: u16, body: String) -> (r: Result<Credentials, AuthError>)
    ensures
        match r {
            Ok(c) => access_token_outcome(status, body@) == Ok::<_, ErrorView>(
                (c.access_token@, c.access_token_secret@, c.screen_name@),
            ),
            Err(e) => access_token_outcome(status, body@) == Err::<
                (Seq<char>, Seq<char>, Seq<char>),
                _,
            >(e@),
        },
{
    if status < 200 || status > 299 {
        return Err(AuthError::Protocol { step: "Access token".to_owned(), status, body });
    }
    let params = parse_form_body(body.as_str());
    let access_token = match required_field(&params, "oauth_token", "access response") {
        Ok(t) => t,
        Err(e) => return Err(e),
    };
    let access_token_secret = match required_field(&params, "oauth_token_secret", "access response") {
        Ok(t) => t,
        Err(e) => return Err(e),
    };
    let screen_name = match required_field(&params, "screen_name", "access response") {
        Ok(t) => t,
        Err(e) => return Err(e),
    };
    Ok(Credentials { access_token, access_token_secret, screen_name })
}

/// A callback whose token is not the one requested fails the login with a
/// token mismatch, and the flow asks for no further call: the access token
/// is never requested.
pub proof fn law_token_mismatch_stops(
    consumer_key: Seq<char>,
    consumer_secret: Seq<char>,
    request_token: String,
    request_token_secret: String,
    oauth_token: String,
    oauth_verifier: String,
    nonce: Seq<char>,
    timestamp: Seq<char>,
    state: LoginState,
    action: LoginAction,
)
    requires
        login_step(
            consumer_key,
            consumer_secret,
            LoginState::AwaitingAuthorization { request_token, request_token_secret },
            LoginEvent::CallbackReceived { oauth_token, oauth_verifier },
            nonce,
            timestamp,
            state,
            action,
        ),
        oauth_token@ != request_token@,
    ensures
        failed_with(state, ErrorView::TokenMismatch),
        action is Stop,
{
}

} // verus!
