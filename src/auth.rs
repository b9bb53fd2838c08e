//! OAuth 1.0a request signing (RFC 5849, HMAC-SHA1).

use crate::config::Config;
use crate::encode::{encoded, percent_encode};
use crate::nonce::{generate_nonce, generate_timestamp, is_nonce, is_timestamp};
use crate::text::{chars_of, push_str};
use base64::engine::general_purpose::STANDARD;
use base64::Engine;
use hmac::{Hmac, Mac};
use sha1::Sha1;
use vstd::prelude::*;
use vstd::utf8::encode_utf8;

verus! {

broadcast use vstd::string::group_string_axioms;

/// A parameter as the contracts see it: name and value.
pub type Pair = (Seq<char>, Seq<char>);

/// The view of a list of owned parameters.
pub open spec fn pairs_view(v: Seq<(String, String)>) -> Seq<Pair> {
    v.map_values(|p: (String, String)| (p.0@, p.1@))
}

/// Strict lexicographic order of names, character by character.  Since UTF-8
/// keeps the order of code points, this is also the order of their bytes.
pub open spec fn name_lt(a: Seq<char>, b: Seq<char>) -> bool
    decreases a.len(),
{
    if a.len() == 0 {
        b.len() > 0
    } else if b.len() == 0 {
        false
    } else if a[0] != b[0] {
        a[0] < b[0]
    } else {
        name_lt(a.drop_first(), b.drop_first())
    }
}

/// `x` put into `s` just before the first entry whose name is greater than its
/// own; into a list sorted by name this keeps it sorted, after equal names.
pub open spec fn insert_by_name(s: Seq<Pair>, x: Pair) -> Seq<Pair>
    decreases s.len(),
{
    if s.len() == 0 {
        seq![x]
    } else if name_lt(x.0, s[0].0) {
        seq![x] + s
    } else {
        seq![s[0]] + insert_by_name(s.drop_first(), x)
    }
}

/// The stable sort of `s` by name: entries with equal names keep their order.
pub open spec fn sort_by_name(s: Seq<Pair>) -> Seq<Pair>
    decreases s.len(),
{
    if s.len() == 0 {
        s
    } else {
        insert_by_name(sort_by_name(s.drop_last()), s.last())
    }
}

/// The items joined with `sep` between each two.
pub open spec fn join(items: Seq<Seq<char>>, sep: Seq<char>) -> Seq<char>
    decreases items.len(),
{
    if items.len() == 0 {
        Seq::empty()
    } else if items.len() == 1 {
        items[0]
    } else {
        join(items.drop_last(), sep) + sep + items.last()
    }
}

/// Whether name `a` comes strictly before name `b`.
fn name_less(a: &Vec<char>, b: &Vec<char>) -> (r: bool)
    ensures
        r == name_lt(a@, b@),
{
    let mut i: usize = 0;
    assert(a@.skip(0) =~= a@);
    assert(b@.skip(0) =~= b@);
    while i < a.len() && i < b.len()
        invariant
            i <= a@.len(),
            i <= b@.len(),
            name_lt(a@, b@) == name_lt(a@.skip(i as int), b@.skip(i as int)),
        decreases a@.len() - i,
    {
        let x = a[i];
        let y = b[i];
        if x != y {
            return x < y;
        }
        assert(a@.skip(i as int).drop_first() =~= a@.skip(i as int + 1));
        assert(b@.skip(i as int).drop_first() =~= b@.skip(i as int + 1));
        i = i + 1;
    }
    i < b.len()
}

/// Inserting before the first greater name is splicing at that place.
proof fn lemma_insert_at(s: Seq<Pair>, x: Pair, j: int)
    requires
        0 <= j <= s.len(),
        forall|k: int| 0 <= k < j ==> !name_lt(x.0, #[trigger] s[k].0),
        j < s.len() ==> name_lt(x.0, s[j].0),
    ensures
        insert_by_name(s, x) == s.take(j) + seq![x] + s.skip(j),
    decreases j,
{
    if s.len() == 0 {
        assert(s.take(j) + seq![x] + s.skip(j) =~= seq![x]);
    } else if j == 0 {
        assert(s.take(j) + seq![x] + s.skip(j) =~= seq![x] + s);
    } else {
        let t = s.drop_first();
        assert forall|k: int| 0 <= k < j - 1 implies !name_lt(x.0, #[trigger] t[k].0) by {
            assert(t[k] == s[k + 1]);
        }
        lemma_insert_at(t, x, j - 1);
        assert(!name_lt(x.0, s[0].0));
        assert(seq![s[0]] + (t.take(j - 1) + seq![x] + t.skip(j - 1)) =~= s.take(j) + seq![x]
            + s.skip(j));
    }
}

/// The parameters sorted by name, stably.
pub fn sort_params(v: &Vec<(String, String)>) -> (r: Vec<(String, String)>)
    ensures
        pairs_view(r@) == sort_by_name(pairs_view(v@)),
{
    let mut out: Vec<(String, String)> = Vec::new();
    let mut i: usize = 0;
    while i < v.len()
        invariant
            i <= v@.len(),
            pairs_view(out@) == sort_by_name(pairs_view(v@.take(i as int))),
        decreases v@.len() - i,
    {
        let name = chars_of(v[i].0.as_str());
        let mut j: usize = 0;
        let mut found = false;
        while j < out.len() && !found
            invariant
                j <= out@.len(),
                forall|k: int| 0 <= k < j ==> !name_lt(name@, #[trigger] out@[k].0@),
                found ==> j < out@.len() && name_lt(name@, out@[j as int].0@),
            decreases out@.len() - j + (if found { 0int } else { 1int }),
        {
            let other = chars_of(out[j].0.as_str());
            if name_less(&name, &other) {
                found = true;
            } else {
                j = j + 1;
            }
        }
        let ghost before = pairs_view(out@);
        let x = (v[i].0.clone(), v[i].1.clone());
        out.insert(j, x);
        proof {
            let px = (v@[i as int].0@, v@[i as int].1@);
            assert(px.0 == name@);
            assert forall|k: int| 0 <= k < j implies !name_lt(px.0, #[trigger] before[k].0) by {
                assert(before[k].0 == out@[k].0@);
            }
            lemma_insert_at(before, px, j as int);
            let pre = pairs_view(v@.take(i as int + 1));
            assert(pre.drop_last() =~= pairs_view(v@.take(i as int)));
            assert(pre.last() == px);
            assert(pairs_view(out@) =~= before.take(j as int) + seq![px] + before.skip(j as int));
        }
        i = i + 1;
    }
    assert(v@.take(v@.len() as int) =~= v@);
    out
}

/// The strings joined with `sep` between each two.
pub fn join_strings(items: &Vec<String>, sep: &str) -> (r: String)
    ensures
        r@ == join(items@.map_values(|s: String| s@), sep@),
{
    let mut out = String::new();
    let mut i: usize = 0;
    while i < items.len()
        invariant
            i <= items@.len(),
            out@ == join(items@.take(i as int).map_values(|s: String| s@), sep@),
        decreases items@.len() - i,
    {
        let ghost pre = items@.take(i as int + 1).map_values(|s: String| s@);
        proof {
            assert(pre.drop_last() =~= items@.take(i as int).map_values(|s: String| s@));
        }
        if i > 0 {
            push_str(&mut out, sep);
        }
        push_str(&mut out, items[i].as_str());
        proof {
            if i == 0 {
                assert(out@ =~= pre[0]);
            } else {
                assert(out@ =~= join(pre.drop_last(), sep@) + sep@ + pre.last());
            }
        }
        i = i + 1;
    }
    assert(items@.take(items@.len() as int) =~= items@);
    out
}

/// What `str::to_uppercase` makes of a string.
pub uninterp spec fn upper_of(s: Seq<char>) -> Seq<char>;

/// The HMAC-SHA1 tag of `msg` under `key`.
pub uninterp spec fn hmac_sha1_of(key: Seq<u8>, msg: Seq<u8>) -> Seq<u8>;

/// The digit of the standard base64 alphabet for `0 <= n < 64`.
pub open spec fn base64_digit(n: int) -> char {
    if n < 26 {
        ((65 + n) as u8) as char
    } else if n < 52 {
        ((97 + n - 26) as u8) as char
    } else if n < 62 {
        ((48 + n - 52) as u8) as char
    } else if n == 62 {
        '+'
    } else {
        '/'
    }
}

/// Standard base64 (RFC 4648, section 4): each three bytes become four digits,
/// and a last group of one or two bytes is padded with `=`.
pub open spec fn base64_of(b: Seq<u8>) -> Seq<char>
    decreases b.len(),
{
    let x = b[0] as int;
    let y = if b.len() > 1 { b[1] as int } else { 0 };
    let z = if b.len() > 2 { b[2] as int } else { 0 };
    if b.len() == 0 {
        Seq::empty()
    } else if b.len() == 1 {
        seq![base64_digit(x / 4), base64_digit((x % 4) * 16), '=', '=']
    } else if b.len() == 2 {
        seq![base64_digit(x / 4), base64_digit((x % 4) * 16 + y / 16), base64_digit((y % 16) * 4), '=']
    } else {
        seq![
            base64_digit(x / 4),
            base64_digit((x % 4) * 16 + y / 16),
            base64_digit((y % 16) * 4 + z / 64),
            base64_digit(z % 64),
        ] + base64_of(b.skip(3))
    }
}

/// Relies on `str::to_uppercase`: the result depends on the characters alone.
#[verifier::external_body]
fn upper(s: &str) -> (r: String)
    ensures
        r@ == upper_of(s@),
{
    s.to_uppercase()
}

/// Relies on `Hmac::<Sha1>`: `new_from_slice` accepts a key of any length
/// (longer ones are hashed first), and the finished tag is twenty bytes.
#[verifier::external_body]
fn hmac_sha1(key: &[u8], msg: &[u8]) -> (r: Vec<u8>)
    ensures
        r@ == hmac_sha1_of(key@, msg@),
        r@.len() == 20,
{
    let mut mac = Hmac::<Sha1>::new_from_slice(key).expect("HMAC takes a key of any size");
    mac.update(msg);
    mac.finalize().into_bytes().to_vec()
}

/// Relies on base64's `STANDARD` engine and `Engine::encode`: the standard
/// alphabet with padding.  The length bound keeps its size computation from
/// overflowing.
#[verifier::external_body]
fn base64_standard(b: &[u8]) -> (r: String)
    requires
        b@.len() <= usize::MAX / 2,
    ensures
        r@ == base64_of(b@),
{
    STANDARD.encode(b)
}

/// The view of the extra parameters a caller hands in.
pub open spec fn extra_view(e: Seq<(&str, &str)>) -> Seq<Pair> {
    e.map_values(|p: (&str, &str)| (p.0@, p.1@))
}

/// The `oauth_token` entry, when there is a token.
pub open spec fn token_entry(token: Option<Seq<char>>) -> Seq<Pair> {
    match token {
        Some(t) => seq![("oauth_token"@, t)],
        None => Seq::empty(),
    }
}

/// What is signed: the protocol parameters, the token if any, then the extra
/// parameters as given.
pub open spec fn signing_params(
    consumer_key: Seq<char>,
    token: Option<Seq<char>>,
    nonce: Seq<char>,
    timestamp: Seq<char>,
    extra: Seq<Pair>,
) -> Seq<Pair> {
    seq![
        ("oauth_consumer_key"@, consumer_key),
        ("oauth_nonce"@, nonce),
        ("oauth_signature_method"@, "HMAC-SHA1"@),
        ("oauth_timestamp"@, timestamp),
        ("oauth_version"@, "1.0"@),
    ] + token_entry(token) + extra
}

/// One `name=value` item of the parameter string, both sides encoded.
pub open spec fn encoded_pair(p: Pair) -> Seq<char> {
    encoded(p.0) + "="@ + encoded(p.1)
}

/// The normalized parameter string: sorted by name, encoded, joined by `&`.
pub open spec fn parameter_string(params: Seq<Pair>) -> Seq<char> {
    join(sort_by_name(params).map_values(|p: Pair| encoded_pair(p)), "&"@)
}

/// The signature base string.
pub open spec fn base_string(method: Seq<char>, url: Seq<char>, params: Seq<Pair>) -> Seq<char> {
    upper_of(method) + "&"@ + encoded(url) + "&"@ + encoded(parameter_string(params))
}

/// The signing key: both secrets encoded, joined by `&`, even when the token
/// secret is empty.
pub open spec fn signing_key(consumer_secret: Seq<char>, token_secret: Seq<char>) -> Seq<char> {
    encoded(consumer_secret) + "&"@ + encoded(token_secret)
}

/// The signature of a base string: base64 of its HMAC-SHA1 tag.
pub open spec fn signature(key: Seq<char>, base: Seq<char>) -> Seq<char> {
    base64_of(hmac_sha1_of(encode_utf8(key), encode_utf8(base)))
}

/// The entries of the header: the protocol parameters with the signature,
/// the token if any, then the extra parameters; values encoded, names not.
pub open spec fn header_entries(
    consumer_key: Seq<char>,
    token: Option<Seq<char>>,
    nonce: Seq<char>,
    timestamp: Seq<char>,
    sig: Seq<char>,
    extra: Seq<Pair>,
) -> Seq<Pair> {
    seq![
        ("oauth_consumer_key"@, encoded(consumer_key)),
        ("oauth_nonce"@, encoded(nonce)),
        ("oauth_signature"@, encoded(sig)),
        ("oauth_signature_method"@, "HMAC-SHA1"@),
        ("oauth_timestamp"@, encoded(timestamp)),
        ("oauth_version"@, "1.0"@),
    ] + token_entry(
        match token {
            Some(t) => Some(encoded(t)),
            None => None,
        },
    ) + extra.map_values(|p: Pair| (p.0, encoded(p.1)))
}

/// One `name="value"` item of the header.
pub open spec fn quoted_pair(p: Pair) -> Seq<char> {
    p.0 + "=\""@ + p.1 + "\""@
}

/// The header text: `OAuth ` and the entries sorted by name, joined by `, `.
pub open spec fn header_text(entries: Seq<Pair>) -> Seq<char> {
    "OAuth "@ + join(sort_by_name(entries).map_values(|p: Pair| quoted_pair(p)), ", "@)
}

/// The whole `Authorization` header for the given inputs.
pub open spec fn oauth_header(
    consumer_key: Seq<char>,
    consumer_secret: Seq<char>,
    token: Option<Seq<char>>,
    token_secret: Seq<char>,
    method: Seq<char>,
    url: Seq<char>,
    extra: Seq<Pair>,
    nonce: Seq<char>,
    timestamp: Seq<char>,
) -> Seq<char> {
    let params = signing_params(consumer_key, token, nonce, timestamp, extra);
    let sig = signature(signing_key(consumer_secret, token_secret), base_string(method, url, params));
    header_text(header_entries(consumer_key, token, nonce, timestamp, sig, extra))
}

/// The view of an optional borrowed string.
pub open spec fn opt_view(o: Option<&str>) -> Option<Seq<char>> {
    match o {
        Some(t) => Some(t@),
        None => None,
    }
}

/// Each pair rendered by `encoded_pair`.
fn encode_each(v: &Vec<(String, String)>) -> (r: Vec<String>)
    ensures
        r@.map_values(|s: String| s@) == pairs_view(v@).map_values(|p: Pair| encoded_pair(p)),
{
    let mut out: Vec<String> = Vec::new();
    let mut i: usize = 0;
    while i < v.len()
        invariant
            i <= v@.len(),
            out@.len() == i,
            forall|k: int| 0 <= k < i ==> (#[trigger] out@[k])@ == encoded_pair((v@[k].0@, v@[k].1@)),
        decreases v@.len() - i,
    {
        let mut item = percent_encode(v[i].0.as_str());
        push_str(&mut item, "=");
        let value = percent_encode(v[i].1.as_str());
        push_str(&mut item, value.as_str());
        out.push(item);
        i = i + 1;
    }
    assert(out@.map_values(|s: String| s@) =~= pairs_view(v@).map_values(|p: Pair| encoded_pair(p)));
    out
}

/// Each pair rendered by `quoted_pair`.
fn quote_each(v: &Vec<(String, String)>) -> (r: Vec<String>)
    ensures
        r@.map_values(|s: String| s@) == pairs_view(v@).map_values(|p: Pair| quoted_pair(p)),
{
    let mut out: Vec<String> = Vec::new();
    let mut i: usize = 0;
    while i < v.len()
        invariant
            i <= v@.len(),
            out@.len() == i,
            forall|k: int| 0 <= k < i ==> (#[trigger] out@[k])@ == quoted_pair((v@[k].0@, v@[k].1@)),
        decreases v@.len() - i,
    {
        let mut item = v[i].0.clone();
        push_str(&mut item, "=\"");
        push_str(&mut item, v[i].1.as_str());
        push_str(&mut item, "\"");
        out.push(item);
        i = i + 1;
    }
    assert(out@.map_values(|s: String| s@) =~= pairs_view(v@).map_values(|p: Pair| quoted_pair(p)));
    out
}

/// Owned copies of the extra parameters, values encoded when `encode_values`.
fn extra_pairs(extra: &[(&str, &str)], encode_values: bool) -> (r: Vec<(String, String)>)
    ensures
        pairs_view(r@) == (if encode_values {
            extra_view(extra@).map_values(|p: Pair| (p.0, encoded(p.1)))
        } else {
            extra_view(extra@)
        }),
{
    let mut out: Vec<(String, String)> = Vec::new();
    let mut i: usize = 0;
    while i < extra.len()
        invariant
            i <= extra@.len(),
            out@.len() == i,
            forall|k: int|
                0 <= k < i ==> (#[trigger] out@[k]).0@ == extra@[k].0@ && out@[k].1@ == (if encode_values {
                    encoded(extra@[k].1@)
                } else {
                    extra@[k].1@
                }),
        decreases extra@.len() - i,
    {
        let (k, v) = extra[i];
        let value = if encode_values {
            percent_encode(v)
        } else {
            v.to_owned()
        };
        out.push((k.to_owned(), value));
        i = i + 1;
    }
    if encode_values {
        assert(pairs_view(out@) =~= extra_view(extra@).map_values(|p: Pair| (p.0, encoded(p.1))));
    } else {
        assert(pairs_view(out@) =~= extra_view(extra@));
    }
    out
}

/// The signature base string of a request: the upper-cased method, the
/// encoded URL and the encoded parameter string, joined by `&`.
pub fn signature_base_string(
    consumer_key: &str,
    token: Option<&str>,
    method: &str,
    url: &str,
    extra_params: &[(&str, &str)],
    nonce: &str,
    timestamp: &str,
) -> (r: String)
    ensures
        r@ == base_string(
            method@,
            url@,
            signing_params(consumer_key@, opt_view(token), nonce@, timestamp@, extra_view(extra_params@)),
        ),
{
    let mut params: Vec<(String, String)> = Vec::new();
    params.push(("oauth_consumer_key".to_owned(), consumer_key.to_owned()));
    params.push(("oauth_nonce".to_owned(), nonce.to_owned()));
    params.push(("oauth_signature_method".to_owned(), "HMAC-SHA1".to_owned()));
    params.push(("oauth_timestamp".to_owned(), timestamp.to_owned()));
    params.push(("oauth_version".to_owned(), "1.0".to_owned()));
    if let Some(t) = token {
        params.push(("oauth_token".to_owned(), t.to_owned()));
    }
    let ghost fixed = pairs_view(params@);
    assert(fixed =~= seq![
        ("oauth_consumer_key"@, consumer_key@),
        ("oauth_nonce"@, nonce@),
        ("oauth_signature_method"@, "HMAC-SHA1"@),
        ("oauth_timestamp"@, timestamp@),
        ("oauth_version"@, "1.0"@),
    ] + token_entry(opt_view(token)));
    let mut extra = extra_pairs(extra_params, false);
    let ghost extra_v = pairs_view(extra@);
    params.append(&mut extra);
    assert(pairs_view(params@) =~= fixed + extra_v);
    let sorted = sort_params(&params);
    let items = encode_each(&sorted);
    let param_string = join_strings(&items, "&");
    let mut base = upper(method);
    push_str(&mut base, "&");
    let url_enc = percent_encode(url);
    push_str(&mut base, url_enc.as_str());
    push_str(&mut base, "&");
    let params_enc = percent_encode(param_string.as_str());
    push_str(&mut base, params_enc.as_str());
    base
}

/// The signed `Authorization` header, with the nonce and timestamp given:
/// the output is a function of the inputs alone.
pub fn build_signed_header(
    consumer_key: &str,
    consumer_secret: &str,
    token: Option<&str>,
    token_secret: &str,
    method: &str,
    url: &str,
    extra_params: &[(&str, &str)],
    nonce: &str,
    timestamp: &str,
) -> (r: String)
    ensures
        r@ == oauth_header(
            consumer_key@,
            consumer_secret@,
            opt_view(token),
            token_secret@,
            method@,
            url@,
            extra_view(extra_params@),
            nonce@,
            timestamp@,
        ),
{
    let base = signature_base_string(consumer_key, token, method, url, extra_params, nonce, timestamp);
    let mut key = percent_encode(consumer_secret);
    push_str(&mut key, "&");
    let secret_enc = percent_encode(token_secret);
    push_str(&mut key, secret_enc.as_str());
    let tag = hmac_sha1(key.as_str().as_bytes(), base.as_str().as_bytes());
    let sig = base64_standard(tag.as_slice());

    let mut entries: Vec<(String, String)> = Vec::new();
    entries.push(("oauth_consumer_key".to_owned(), percent_encode(consumer_key)));
    entries.push(("oauth_nonce".to_owned(), percent_encode(nonce)));
    entries.push(("oauth_signature".to_owned(), percent_encode(sig.as_str())));
    entries.push(("oauth_signature_method".to_owned(), "HMAC-SHA1".to_owned()));
    entries.push(("oauth_timestamp".to_owned(), percent_encode(timestamp)));
    entries.push(("oauth_version".to_owned(), "1.0".to_owned()));
    if let Some(t) = token {
        entries.push(("oauth_token".to_owned(), percent_encode(t)));
    }
    let ghost fixed = pairs_view(entries@);
    let ghost enc_token: Option<Seq<char>> = match token {
        Some(t) => Some(encoded(t@)),
        None => None,
    };
    assert(fixed =~= seq![
        ("oauth_consumer_key"@, encoded(consumer_key@)),
        ("oauth_nonce"@, encoded(nonce@)),
        ("oauth_signature"@, encoded(sig@)),
        ("oauth_signature_method"@, "HMAC-SHA1"@),
        ("oauth_timestamp"@, encoded(timestamp@)),
        ("oauth_version"@, "1.0"@),
    ] + token_entry(enc_token));
    let mut extra = extra_pairs(extra_params, true);
    let ghost extra_v = pairs_view(extra@);
    entries.append(&mut extra);
    assert(pairs_view(entries@) =~= fixed + extra_v);
    let sorted = sort_params(&entries);
    let items = quote_each(&sorted);
    let body = join_strings(&items, ", ");
    let mut header = "OAuth ".to_owned();
    push_str(&mut header, body.as_str());
    header
}

/// The signed `Authorization` header, with a fresh nonce and the current
/// time.  `token` is absent for the request-token step; `extra_params` (such
/// as `oauth_callback` or `oauth_verifier`) are signed and sent as well.
pub fn build_flexible_oauth_header(
    consumer_key: &str,
    consumer_secret: &str,
    token: Option<&str>,
    token_secret: &str,
    method: &str,
    url: &str,
    extra_params: &[(&str, &str)],
) -> (r: String)
    ensures
        exists|nonce: Seq<char>, timestamp: Seq<char>|
            is_nonce(nonce) && is_timestamp(timestamp) && r@ == oauth_header(
                consumer_key@,
                consumer_secret@,
                opt_view(token),
                token_secret@,
                method@,
                url@,
                extra_view(extra_params@),
                nonce,
                timestamp,
            ),
{
    let nonce = generate_nonce();
    let timestamp = generate_timestamp();
    build_signed_header(
        consumer_key,
        consumer_secret,
        token,
        token_secret,
        method,
        url,
        extra_params,
        nonce.as_str(),
        timestamp.as_str(),
    )
}

/// The header for an authenticated call with the user's stored tokens.
pub fn build_oauth_header(config: &Config, method: &str, url: &str) -> (r: String)
    ensures
        exists|nonce: Seq<char>, timestamp: Seq<char>|
            is_nonce(nonce) && is_timestamp(timestamp) && r@ == oauth_header(
                config.api_key@,
                config.api_secret@,
                Some(config.access_token@),
                config.access_token_secret@,
                method@,
                url@,
                Seq::empty(),
                nonce,
                timestamp,
            ),
{
    let no_extra: Vec<(&str, &str)> = Vec::new();
    let r = build_flexible_oauth_header(
        config.api_key.as_str(),
        config.api_secret.as_str(),
        Some(config.access_token.as_str()),
        config.access_token_secret.as_str(),
        method,
        url,
        no_extra.as_slice(),
    );
    assert(extra_view(no_extra@) =~= Seq::<Pair>::empty());
    r
}

/// No entry is followed by one with a smaller name.
pub open spec fn sorted_by_name(s: Seq<Pair>) -> bool {
    forall|i: int, j: int| 0 <= i < j < s.len() ==> !name_lt(s[j].0, s[i].0)
}

/// How many entries have the name `n`.
pub open spec fn name_count(s: Seq<Pair>, n: Seq<char>) -> nat
    decreases s.len(),
{
    if s.len() == 0 {
        0
    } else {
        (if s[0].0 == n {
            1nat
        } else {
            0nat
        }) + name_count(s.drop_first(), n)
    }
}

proof fn lemma_name_lt_irreflexive(a: Seq<char>)
    ensures
        !name_lt(a, a),
    decreases a.len(),
{
    if a.len() > 0 {
        lemma_name_lt_irreflexive(a.drop_first());
    }
}

proof fn lemma_name_lt_transitive(a: Seq<char>, b: Seq<char>, c: Seq<char>)
    requires
        name_lt(a, b),
        name_lt(b, c),
    ensures
        name_lt(a, c),
    decreases a.len(),
{
    if a.len() > 0 && b.len() > 0 && c.len() > 0 && a[0] == b[0] && b[0] == c[0] {
        lemma_name_lt_transitive(a.drop_first(), b.drop_first(), c.drop_first());
    }
}

/// Where `insert_by_name` puts `x`: before the first greater name.
pub open spec fn insert_pos(s: Seq<Pair>, x: Pair) -> int
    decreases s.len(),
{
    if s.len() == 0 {
        0
    } else if name_lt(x.0, s[0].0) {
        0
    } else {
        1 + insert_pos(s.drop_first(), x)
    }
}

proof fn lemma_insert_pos(s: Seq<Pair>, x: Pair)
    ensures
        0 <= insert_pos(s, x) <= s.len(),
        forall|k: int| 0 <= k < insert_pos(s, x) ==> !name_lt(x.0, #[trigger] s[k].0),
        insert_pos(s, x) < s.len() ==> name_lt(x.0, s[insert_pos(s, x)].0),
    decreases s.len(),
{
    if s.len() > 0 && !name_lt(x.0, s[0].0) {
        let t = s.drop_first();
        lemma_insert_pos(t, x);
        assert forall|k: int| 0 <= k < insert_pos(s, x) implies !name_lt(x.0, #[trigger] s[k].0) by {
            if k > 0 {
                assert(s[k] == t[k - 1]);
            }
        }
    }
}

proof fn lemma_name_count_concat(a: Seq<Pair>, b: Seq<Pair>, n: Seq<char>)
    ensures
        name_count(a + b, n) == name_count(a, n) + name_count(b, n),
    decreases a.len(),
{
    if a.len() == 0 {
        assert(a + b =~= b);
    } else {
        assert((a + b).drop_first() =~= a.drop_first() + b);
        lemma_name_count_concat(a.drop_first(), b, n);
    }
}

proof fn lemma_name_count_single(x: Pair, n: Seq<char>)
    ensures
        name_count(seq![x], n) == (if x.0 == n {
            1nat
        } else {
            0nat
        }),
{
    assert(seq![x].drop_first() =~= Seq::<Pair>::empty());
    assert(name_count(Seq::<Pair>::empty(), n) == 0);
    assert(seq![x][0] == x);
}

/// Inserting keeps a sorted list sorted and adds one entry of the name.
proof fn lemma_insert_sorted(s: Seq<Pair>, x: Pair)
    requires
        sorted_by_name(s),
    ensures
        sorted_by_name(insert_by_name(s, x)),
        forall|n: Seq<char>| #[trigger] name_count(insert_by_name(s, x), n) == name_count(s, n) + (if x.0 == n {
            1nat
        } else {
            0nat
        }),
{
    lemma_insert_pos(s, x);
    let j = insert_pos(s, x);
    lemma_insert_at(s, x, j);
    let r = insert_by_name(s, x);
    assert forall|a: int, b: int| 0 <= a < b < r.len() implies !name_lt(r[b].0, r[a].0) by {
        if b < j {
            assert(r[a] == s[a] && r[b] == s[b]);
        } else if b == j {
            assert(r[b] == x);
            assert(r[a] == s[a]);
        } else if a < j {
            assert(r[a] == s[a] && r[b] == s[b - 1]);
            if a < b - 1 {
            } else {
                lemma_name_lt_irreflexive(s[a].0);
            }
        } else if a == j {
            assert(r[a] == x && r[b] == s[b - 1]);
            assert(name_lt(x.0, s[j].0));
            if b - 1 > j {
                assert(!name_lt(s[b - 1].0, s[j].0));
            }
            if name_lt(s[b - 1].0, x.0) {
                lemma_name_lt_transitive(s[b - 1].0, x.0, s[j].0);
                lemma_name_lt_irreflexive(s[j].0);
            }
        } else {
            assert(r[a] == s[a - 1] && r[b] == s[b - 1]);
        }
    }
    assert forall|n: Seq<char>| #[trigger] name_count(r, n) == name_count(s, n) + (if x.0 == n {
        1nat
    } else {
        0nat
    }) by {
        lemma_name_count_concat(s.take(j) + seq![x], s.skip(j), n);
        lemma_name_count_concat(s.take(j), seq![x], n);
        lemma_name_count_concat(s.take(j), s.skip(j), n);
        lemma_name_count_single(x, n);
        assert(s.take(j) + s.skip(j) =~= s);
    }
}

/// The stable sort is sorted and holds each name as often as its input.
pub proof fn lemma_sort_by_name(s: Seq<Pair>)
    ensures
        sorted_by_name(sort_by_name(s)),
        forall|n: Seq<char>| #[trigger] name_count(sort_by_name(s), n) == name_count(s, n),
    decreases s.len(),
{
    if s.len() > 0 {
        let t = s.drop_last();
        lemma_sort_by_name(t);
        lemma_insert_sorted(sort_by_name(t), s.last());
        assert forall|n: Seq<char>| #[trigger] name_count(sort_by_name(s), n) == name_count(s, n) by {
            lemma_name_count_concat(t, seq![s.last()], n);
            lemma_name_count_single(s.last(), n);
            assert(t + seq![s.last()] =~= s);
        }
    }
}

/// Whatever order the parameters come in, the header and the parameter
/// string list them sorted by name, each name as often as it was given.
pub proof fn law_header_sorted_by_name(
    consumer_key: Seq<char>,
    consumer_secret: Seq<char>,
    token: Option<Seq<char>>,
    token_secret: Seq<char>,
    method: Seq<char>,
    url: Seq<char>,
    extra: Seq<Pair>,
    nonce: Seq<char>,
    timestamp: Seq<char>,
)
    ensures
        ({
            let params = signing_params(consumer_key, token, nonce, timestamp, extra);
            let sig = signature(
                signing_key(consumer_secret, token_secret),
                base_string(method, url, params),
            );
            let entries = header_entries(consumer_key, token, nonce, timestamp, sig, extra);
            &&& oauth_header(
                consumer_key,
                consumer_secret,
                token,
                token_secret,
                method,
                url,
                extra,
                nonce,
                timestamp,
            ) == "OAuth "@ + join(sort_by_name(entries).map_values(|p: Pair| quoted_pair(p)), ", "@)
            &&& sorted_by_name(sort_by_name(entries))
            &&& forall|n: Seq<char>| #[trigger] name_count(sort_by_name(entries), n) == name_count(entries, n)
            &&& sorted_by_name(sort_by_name(params))
            &&& forall|n: Seq<char>| #[trigger] name_count(sort_by_name(params), n) == name_count(params, n)
        }),
{
    let params = signing_params(consumer_key, token, nonce, timestamp, extra);
    let sig = signature(signing_key(consumer_secret, token_secret), base_string(method, url, params));
    lemma_sort_by_name(header_entries(consumer_key, token, nonce, timestamp, sig, extra));
    lemma_sort_by_name(params);
}

/// A name that the protocol itself sets.
pub open spec fn is_protocol_name(n: Seq<char>) -> bool {
    ||| n == "oauth_consumer_key"@
    ||| n == "oauth_nonce"@
    ||| n == "oauth_signature"@
    ||| n == "oauth_signature_method"@
    ||| n == "oauth_timestamp"@
    ||| n == "oauth_version"@
    ||| n == "oauth_token"@
}

proof fn lemma_count_one(s: Seq<Pair>, n: Seq<char>, i: int)
    requires
        0 <= i < s.len(),
        s[i].0 == n,
        forall|k: int| 0 <= k < s.len() && k != i ==> (#[trigger] s[k]).0 != n,
    ensures
        name_count(s, n) == 1,
    decreases s.len(),
{
    let t = s.drop_first();
    if i == 0 {
        lemma_count_none(t, n);
    } else {
        assert forall|k: int| 0 <= k < t.len() && k != i - 1 implies (#[trigger] t[k]).0 != n by {
            assert(t[k] == s[k + 1]);
        }
        lemma_count_one(t, n, i - 1);
    }
}

proof fn lemma_count_none(s: Seq<Pair>, n: Seq<char>)
    requires
        forall|k: int| 0 <= k < s.len() ==> (#[trigger] s[k]).0 != n,
    ensures
        name_count(s, n) == 0,
    decreases s.len(),
{
    if s.len() > 0 {
        let t = s.drop_first();
        assert forall|k: int| 0 <= k < t.len() implies (#[trigger] t[k]).0 != n by {
            assert(t[k] == s[k + 1]);
        }
        lemma_count_none(t, n);
    }
}

/// The header starts with `OAuth `; with no extra parameter named like one
/// of the protocol's, each protocol field is in it exactly once, and
/// `oauth_token` once with a token and not at all without one.
pub proof fn law_header_fields_once(
    consumer_key: Seq<char>,
    consumer_secret: Seq<char>,
    token: Option<Seq<char>>,
    token_secret: Seq<char>,
    method: Seq<char>,
    url: Seq<char>,
    extra: Seq<Pair>,
    nonce: Seq<char>,
    timestamp: Seq<char>,
)
    requires
        forall|i: int| 0 <= i < extra.len() ==> !is_protocol_name(#[trigger] extra[i].0),
    ensures
        ({
            let header = oauth_header(
                consumer_key,
                consumer_secret,
                token,
                token_secret,
                method,
                url,
                extra,
                nonce,
                timestamp,
            );
            let params = signing_params(consumer_key, token, nonce, timestamp, extra);
            let sig = signature(
                signing_key(consumer_secret, token_secret),
                base_string(method, url, params),
            );
            let entries = sort_by_name(header_entries(consumer_key, token, nonce, timestamp, sig, extra));
            &&& header.len() >= 6
            &&& header.take(6) == "OAuth "@
            &&& name_count(entries, "oauth_consumer_key"@) == 1
            &&& name_count(entries, "oauth_nonce"@) == 1
            &&& name_count(entries, "oauth_signature"@) == 1
            &&& name_count(entries, "oauth_signature_method"@) == 1
            &&& name_count(entries, "oauth_timestamp"@) == 1
            &&& name_count(entries, "oauth_version"@) == 1
            &&& name_count(entries, "oauth_token"@) == (if token is Some {
                1nat
            } else {
                0nat
            })
        }),
{
    reveal_strlit("OAuth ");
    lemma_protocol_names_distinct();
    let names = seq![
        "oauth_consumer_key"@,
        "oauth_nonce"@,
        "oauth_signature"@,
        "oauth_signature_method"@,
        "oauth_timestamp"@,
        "oauth_version"@,
        "oauth_token"@,
    ];
    assert forall|a: int, b: int| 0 <= a < b < 7 implies names[a] != names[b] by {}
    let params = signing_params(consumer_key, token, nonce, timestamp, extra);
    let sig = signature(signing_key(consumer_secret, token_secret), base_string(method, url, params));
    let e = header_entries(consumer_key, token, nonce, timestamp, sig, extra);
    lemma_sort_by_name(e);
    let t: int = if token is Some { 1 } else { 0 };
    assert(e.len() == 6 + t + extra.len());
    assert forall|k: int| 6 + t <= k < e.len() implies !is_protocol_name(#[trigger] e[k].0) by {
        assert(e[k].0 == extra[k - 6 - t].0);
    }
    assert forall|k: int| 0 <= k < 6 + t implies (#[trigger] e[k]).0 == names[k] by {}
    assert forall|i: int| 0 <= i < 6 implies name_count(e, #[trigger] names[i]) == 1 by {
        assert forall|k: int| 0 <= k < e.len() && k != i implies (#[trigger] e[k]).0 != names[i] by {
            if k >= 6 + t {
                assert(!is_protocol_name(e[k].0));
            } else {
                assert(e[k].0 == names[k]);
            }
        }
        lemma_count_one(e, names[i], i);
    }
    if token is Some {
        assert forall|k: int| 0 <= k < e.len() && k != 6 implies (#[trigger] e[k]).0 != names[6] by {
            if k >= 7 {
                assert(!is_protocol_name(e[k].0));
            } else {
                assert(e[k].0 == names[k]);
            }
        }
        lemma_count_one(e, names[6], 6);
    } else {
        assert forall|k: int| 0 <= k < e.len() implies (#[trigger] e[k]).0 != names[6] by {
            if k >= 6 {
                assert(!is_protocol_name(e[k].0));
            } else {
                assert(e[k].0 == names[k]);
            }
        }
        lemma_count_none(e, names[6]);
    }
    let header = oauth_header(consumer_key, consumer_secret, token, token_secret, method, url, extra, nonce, timestamp);
    let body = join(sort_by_name(e).map_values(|p: Pair| quoted_pair(p)), ", "@);
    assert(header == "OAuth "@ + body);
    assert(header.take(6) =~= "OAuth "@);
}

/// The names of a list of pairs are pairwise distinct.
pub open spec fn distinct_names(s: Seq<Pair>) -> bool {
    forall|i: int, j: int| 0 <= i < j < s.len() ==> s[i].0 != s[j].0
}

proof fn lemma_name_lt_total(a: Seq<char>, b: Seq<char>)
    ensures
        a != b ==> name_lt(a, b) || name_lt(b, a),
    decreases a.len(),
{
    if a.len() > 0 && b.len() > 0 && a[0] == b[0] {
        lemma_name_lt_total(a.drop_first(), b.drop_first());
        if a != b {
            assert(a.drop_first() != b.drop_first()) by {
                if a.drop_first() == b.drop_first() {
                    assert(a =~= seq![a[0]] + a.drop_first());
                    assert(b =~= seq![b[0]] + b.drop_first());
                }
            }
        }
    } else if a.len() == 0 && b.len() == 0 {
        assert(a =~= b);
    }
}

/// Sorting keeps the entries, only their order changes.
proof fn lemma_sort_multiset(s: Seq<Pair>)
    ensures
        sort_by_name(s).to_multiset() == s.to_multiset(),
    decreases s.len(),
{
    broadcast use vstd::seq_lib::group_to_multiset_ensures;

    if s.len() > 0 {
        let t = s.drop_last();
        lemma_sort_multiset(t);
        let st = sort_by_name(t);
        lemma_insert_pos(st, s.last());
        let j = insert_pos(st, s.last());
        lemma_insert_at(st, s.last(), j);
        assert(insert_by_name(st, s.last()) =~= st.insert(j, s.last()));
        vstd::seq_lib::to_multiset_insert(st, j, s.last());
        vstd::seq_lib::to_multiset_build(t, s.last());
        assert(t.push(s.last()) =~= s);
    }
}

/// Two sorted lists with the same entries, whose names are distinct, are
/// the same list.
proof fn lemma_sorted_unique(a: Seq<Pair>, b: Seq<Pair>)
    requires
        sorted_by_name(a),
        sorted_by_name(b),
        distinct_names(a),
        a.to_multiset() == b.to_multiset(),
    ensures
        a == b,
    decreases a.len(),
{
    broadcast use vstd::seq_lib::group_to_multiset_ensures;

    vstd::seq_lib::to_multiset_len(a);
    vstd::seq_lib::to_multiset_len(b);
    if a.len() == 0 {
        assert(a =~= b);
    } else {
        vstd::seq_lib::to_multiset_contains(a, b[0]);
        vstd::seq_lib::to_multiset_contains(b, b[0]);
        vstd::seq_lib::to_multiset_contains(b, a[0]);
        vstd::seq_lib::to_multiset_contains(a, a[0]);
        assert(b.contains(b[0]));
        assert(a.contains(a[0]));
        let i = choose|i: int| 0 <= i < a.len() && a[i] == b[0];
        let k = choose|k: int| 0 <= k < b.len() && b[k] == a[0];
        if i > 0 {
            assert(!name_lt(a[i].0, a[0].0));
        }
        if k > 0 {
            assert(!name_lt(b[k].0, b[0].0));
        }
        lemma_name_lt_total(a[0].0, b[0].0);
        lemma_name_lt_irreflexive(a[0].0);
        assert(a[0].0 == b[0].0);
        assert(i == 0);
        assert(a[0] == b[0]);
        vstd::seq_lib::to_multiset_remove(a, 0);
        vstd::seq_lib::to_multiset_remove(b, 0);
        assert(a.remove(0) =~= a.drop_first());
        assert(b.remove(0) =~= b.drop_first());
        lemma_sorted_unique(a.drop_first(), b.drop_first());
        assert forall|m: int| 0 <= m < a.len() implies a[m] == b[m] by {
            if m > 0 {
                assert(a[m] == a.drop_first()[m - 1]);
                assert(b[m] == b.drop_first()[m - 1]);
            }
        }
        assert(a =~= b);
    }
}

/// A list with distinct names holds each name at most once.
proof fn lemma_distinct_count(s: Seq<Pair>, n: Seq<char>)
    requires
        distinct_names(s),
    ensures
        name_count(s, n) <= 1,
    decreases s.len(),
{
    if s.len() > 0 {
        let t = s.drop_first();
        assert(distinct_names(t));
        lemma_distinct_count(t, n);
        if s[0].0 == n {
            assert forall|k: int| 0 <= k < t.len() implies (#[trigger] t[k]).0 != n by {
                assert(t[k] == s[k + 1]);
            }
            lemma_count_none(t, n);
        }
    }
}

/// Two entries with one name count twice.
proof fn lemma_count_two(s: Seq<Pair>, i: int, j: int)
    requires
        0 <= i < j < s.len(),
        s[i].0 == s[j].0,
    ensures
        name_count(s, s[i].0) >= 2,
    decreases s.len(),
{
    let t = s.drop_first();
    if i == 0 {
        assert(t[j - 1] == s[j]);
        lemma_count_at_least_one(t, s[i].0, j - 1);
    } else {
        assert(t[i - 1] == s[i] && t[j - 1] == s[j]);
        lemma_count_two(t, i - 1, j - 1);
    }
}

proof fn lemma_count_at_least_one(s: Seq<Pair>, n: Seq<char>, i: int)
    requires
        0 <= i < s.len(),
        s[i].0 == n,
    ensures
        name_count(s, n) >= 1,
    decreases s.len(),
{
    if i > 0 {
        assert(s.drop_first()[i - 1] == s[i]);
        lemma_count_at_least_one(s.drop_first(), n, i - 1);
    }
}

/// Entries with distinct names sort to one and the same list, whatever order
/// they come in.
pub proof fn lemma_sort_order_independent(a: Seq<Pair>, b: Seq<Pair>)
    requires
        distinct_names(a),
        a.to_multiset() == b.to_multiset(),
    ensures
        sort_by_name(a) == sort_by_name(b),
{
    lemma_sort_by_name(a);
    lemma_sort_by_name(b);
    lemma_sort_multiset(a);
    lemma_sort_multiset(b);
    let sa = sort_by_name(a);
    assert forall|i: int, j: int| 0 <= i < j < sa.len() implies sa[i].0 != sa[j].0 by {
        if sa[i].0 == sa[j].0 {
            lemma_count_two(sa, i, j);
            lemma_distinct_count(a, sa[i].0);
        }
    }
    lemma_sorted_unique(sa, sort_by_name(b));
}

/// The extra parameters as the header lists them: values encoded.
pub open spec fn encoded_values(extra: Seq<Pair>) -> Seq<Pair> {
    extra.map_values(|p: Pair| (p.0, encoded(p.1)))
}

/// Encoding the values of two lists with the same entries gives two lists
/// with the same entries.
proof fn lemma_encoded_values_multiset(a: Seq<Pair>, b: Seq<Pair>)
    requires
        a.to_multiset() == b.to_multiset(),
    ensures
        encoded_values(a).to_multiset() == encoded_values(b).to_multiset(),
    decreases a.len(),
{
    broadcast use vstd::seq_lib::group_to_multiset_ensures;

    vstd::seq_lib::to_multiset_len(a);
    vstd::seq_lib::to_multiset_len(b);
    if a.len() == 0 {
        assert(encoded_values(a) =~= encoded_values(b));
    } else {
        vstd::seq_lib::to_multiset_contains(a, a[0]);
        vstd::seq_lib::to_multiset_contains(b, a[0]);
        assert(a.contains(a[0]));
        let k = choose|k: int| 0 <= k < b.len() && b[k] == a[0];
        vstd::seq_lib::to_multiset_remove(a, 0);
        vstd::seq_lib::to_multiset_remove(b, k);
        lemma_encoded_values_multiset(a.remove(0), b.remove(k));
        let ea = encoded_values(a);
        let eb = encoded_values(b);
        let x = (a[0].0, encoded(a[0].1));
        assert(ea =~= encoded_values(a.remove(0)).insert(0, x));
        assert(eb =~= encoded_values(b.remove(k)).insert(k, x));
        vstd::seq_lib::to_multiset_insert(encoded_values(a.remove(0)), 0, x);
        vstd::seq_lib::to_multiset_insert(encoded_values(b.remove(k)), k, x);
    }
}

/// The names of `prefix + extra` are distinct when those of `prefix` are,
/// those of `extra` are, and no name of `extra` is a protocol name while all
/// of `prefix` are.
proof fn lemma_distinct_join(prefix: Seq<Pair>, extra: Seq<Pair>)
    requires
        distinct_names(prefix),
        distinct_names(extra),
        forall|i: int| 0 <= i < prefix.len() ==> is_protocol_name(#[trigger] prefix[i].0),
        forall|i: int| 0 <= i < extra.len() ==> !is_protocol_name(#[trigger] extra[i].0),
    ensures
        distinct_names(prefix + extra),
{
    let s = prefix + extra;
    assert forall|i: int, j: int| 0 <= i < j < s.len() implies s[i].0 != s[j].0 by {
        if j < prefix.len() {
            assert(s[i] == prefix[i] && s[j] == prefix[j]);
        } else if i >= prefix.len() {
            assert(s[i] == extra[i - prefix.len()] && s[j] == extra[j - prefix.len()]);
        } else {
            assert(s[i] == prefix[i] && s[j] == extra[j - prefix.len()]);
            assert(is_protocol_name(s[i].0));
            assert(!is_protocol_name(s[j].0));
        }
    }
}

proof fn lemma_protocol_names_distinct()
    ensures
        "oauth_consumer_key"@ != "oauth_nonce"@,
        "oauth_consumer_key"@ != "oauth_signature"@,
        "oauth_consumer_key"@ != "oauth_signature_method"@,
        "oauth_consumer_key"@ != "oauth_timestamp"@,
        "oauth_consumer_key"@ != "oauth_version"@,
        "oauth_consumer_key"@ != "oauth_token"@,
        "oauth_nonce"@ != "oauth_signature"@,
        "oauth_nonce"@ != "oauth_signature_method"@,
        "oauth_nonce"@ != "oauth_timestamp"@,
        "oauth_nonce"@ != "oauth_version"@,
        "oauth_nonce"@ != "oauth_token"@,
        "oauth_signature"@ != "oauth_signature_method"@,
        "oauth_signature"@ != "oauth_timestamp"@,
        "oauth_signature"@ != "oauth_version"@,
        "oauth_signature"@ != "oauth_token"@,
        "oauth_signature_method"@ != "oauth_timestamp"@,
        "oauth_signature_method"@ != "oauth_version"@,
        "oauth_signature_method"@ != "oauth_token"@,
        "oauth_timestamp"@ != "oauth_version"@,
        "oauth_timestamp"@ != "oauth_token"@,
        "oauth_version"@ != "oauth_token"@,
{
    reveal_strlit("oauth_consumer_key");
    reveal_strlit("oauth_nonce");
    reveal_strlit("oauth_signature");
    reveal_strlit("oauth_signature_method");
    reveal_strlit("oauth_timestamp");
    reveal_strlit("oauth_version");
    reveal_strlit("oauth_token");
    assert("oauth_consumer_key"@[6] == 'c');
    assert("oauth_nonce"@[6] == 'n');
    assert("oauth_signature"@[6] == 's');
    assert("oauth_signature_method"@[6] == 's');
    assert("oauth_timestamp"@[6] == 't');
    assert("oauth_version"@[6] == 'v');
    assert("oauth_token"@[6] == 't');
    assert("oauth_signature"@.len() != "oauth_signature_method"@.len());
    assert("oauth_timestamp"@.len() != "oauth_token"@.len());
}

/// Extra parameters with distinct names, none of them a protocol name, give
/// the same header whatever order they are passed in.
pub proof fn law_header_order_independent(
    consumer_key: Seq<char>,
    consumer_secret: Seq<char>,
    token: Option<Seq<char>>,
    token_secret: Seq<char>,
    method: Seq<char>,
    url: Seq<char>,
    extra: Seq<Pair>,
    reordered: Seq<Pair>,
    nonce: Seq<char>,
    timestamp: Seq<char>,
)
    requires
        distinct_names(extra),
        forall|i: int| 0 <= i < extra.len() ==> !is_protocol_name(#[trigger] extra[i].0),
        reordered.to_multiset() == extra.to_multiset(),
    ensures
        oauth_header(
            consumer_key,
            consumer_secret,
            token,
            token_secret,
            method,
            url,
            extra,
            nonce,
            timestamp,
        ) == oauth_header(
            consumer_key,
            consumer_secret,
            token,
            token_secret,
            method,
            url,
            reordered,
            nonce,
            timestamp,
        ),
{
    broadcast use vstd::seq_lib::group_to_multiset_ensures;

    lemma_protocol_names_distinct();
    let prefix = signing_params(consumer_key, token, nonce, timestamp, Seq::empty());
    assert(prefix + extra =~= signing_params(consumer_key, token, nonce, timestamp, extra));
    assert(prefix + reordered =~= signing_params(consumer_key, token, nonce, timestamp, reordered));
    lemma_distinct_join(prefix, extra);
    vstd::seq_lib::lemma_multiset_commutative(prefix, extra);
    vstd::seq_lib::lemma_multiset_commutative(prefix, reordered);
    lemma_sort_order_independent(prefix + extra, prefix + reordered);
    let params = signing_params(consumer_key, token, nonce, timestamp, extra);
    let sig = signature(signing_key(consumer_secret, token_secret), base_string(method, url, params));
    let head = header_entries(consumer_key, token, nonce, timestamp, sig, Seq::empty());
    let ex = encoded_values(extra);
    let er = encoded_values(reordered);
    assert(head + ex =~= header_entries(consumer_key, token, nonce, timestamp, sig, extra));
    assert(head + er =~= header_entries(consumer_key, token, nonce, timestamp, sig, reordered));
    assert forall|i: int| 0 <= i < ex.len() implies !is_protocol_name(#[trigger] ex[i].0) by {
        assert(ex[i].0 == extra[i].0);
    }
    assert(distinct_names(ex)) by {
        assert forall|i: int, j: int| 0 <= i < j < ex.len() implies ex[i].0 != ex[j].0 by {
            assert(ex[i].0 == extra[i].0 && ex[j].0 == extra[j].0);
        }
    }
    lemma_distinct_join(head, ex);
    lemma_encoded_values_multiset(reordered, extra);
    vstd::seq_lib::lemma_multiset_commutative(head, ex);
    vstd::seq_lib::lemma_multiset_commutative(head, er);
    lemma_sort_order_independent(head + ex, head + er);
}

} // verus!
