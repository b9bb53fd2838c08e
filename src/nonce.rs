//! Per-request nonces and timestamps.

use crate::text::push_char;
use rand::Rng;
use std::time::{SystemTime, UNIX_EPOCH};
use vstd::prelude::*;

verus! {

broadcast use vstd::string::group_string_axioms;

/// The length of a nonce.
pub const NONCE_LEN: usize = 32;

/// A character a nonce may hold: `0-9` or `a-z`.
pub open spec fn is_nonce_char(c: char) -> bool {
    ('0' <= c <= '9') || ('a' <= c <= 'z')
}

/// A nonce: thirty-two characters of `0-9a-z`.
pub open spec fn is_nonce(s: Seq<char>) -> bool {
    &&& s.len() == NONCE_LEN
    &&& forall|i: int| 0 <= i < s.len() ==> is_nonce_char(#[trigger] s[i])
}

/// The decimal digit `d`, for `d < 10`.
pub open spec fn digit_char(d: nat) -> char {
    ((48 + d) as u8) as char
}

/// The decimal numeral of `n`, without leading zeros.
pub open spec fn decimal(n: nat) -> Seq<char>
    decreases n,
{
    if n < 10 {
        seq![digit_char(n)]
    } else {
        decimal(n / 10).push(digit_char(n % 10))
    }
}

/// A timestamp: the decimal numeral of some count of seconds.
pub open spec fn is_timestamp(s: Seq<char>) -> bool {
    exists|n: nat| s == decimal(n)
}

/// Relies on `rand::thread_rng` and `Rng::gen_range`: a number below `bound`
/// (the range is not empty, so it does not panic).
#[verifier::external_body]
fn random_below(bound: u8) -> (r: u8)
    requires
        bound > 0,
    ensures
        r < bound,
{
    rand::thread_rng().gen_range(0..bound)
}

/// Relies on `SystemTime::now` and `SystemTime::duration_since`: the whole
/// seconds since the Unix epoch, or nothing when the clock reads earlier.
#[verifier::external_body]
fn unix_seconds() -> Option<u64> {
    SystemTime::now().duration_since(UNIX_EPOCH).ok().map(|d| d.as_secs())
}

/// The character of `0-9a-z` at place `idx`.
pub fn nonce_char(idx: u8) -> (c: char)
    requires
        idx < 36,
    ensures
        is_nonce_char(c),
        idx < 10 ==> c as u32 == 48 + idx,
        idx >= 10 ==> c as u32 == 97 + idx - 10,
{
    if idx < 10 {
        (48 + idx) as char
    } else {
        (97 + idx - 10) as char
    }
}

/// A fresh nonce of thirty-two random characters of `0-9a-z`.
pub fn generate_nonce() -> (r: String)
    ensures
        is_nonce(r@),
{
    let mut s = String::new();
    let mut i: usize = 0;
    while i < NONCE_LEN
        invariant
            i <= NONCE_LEN,
            s@.len() == i,
            forall|k: int| 0 <= k < i ==> is_nonce_char(#[trigger] s@[k]),
        decreases NONCE_LEN - i,
    {
        let idx = random_below(36);
        push_char(&mut s, nonce_char(idx));
        i = i + 1;
    }
    s
}

/// The decimal numeral of `n`.
pub fn decimal_string(n: u64) -> (r: String)
    ensures
        r@ == decimal(n as nat),
    decreases n,
{
    if n < 10 {
        let mut s = String::new();
        push_char(&mut s, ((48 + n) as u8) as char);
        s
    } else {
        let mut s = decimal_string(n / 10);
        push_char(&mut s, ((48 + n % 10) as u8) as char);
        s
    }
}

/// The seconds since the Unix epoch, in decimal; `0` when the clock reads
/// earlier than the epoch.
pub fn generate_timestamp() -> (r: String)
    ensures
        is_timestamp(r@),
{
    let secs = match unix_seconds() {
        Some(s) => s,
        None => 0,
    };
    let r = decimal_string(secs);
    assert(r@ == decimal(secs as nat));
    r
}

} // verus!
