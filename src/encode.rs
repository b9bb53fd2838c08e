//! Percent-encoding over the RFC 3986 unreserved set.

use percent_encoding::percent_encode_byte;
use crate::text::{push_char, push_str};
use vstd::prelude::*;
use vstd::utf8::{encode_scalar, encode_utf8};

verus! {

/// A byte of the unreserved set: the ASCII codes of `A-Z`, `a-z`, `0-9`,
/// `-`, `.`, `_` and `~`.
pub open spec fn is_unreserved(b: u8) -> bool {
    ||| 65 <= b <= 90
    ||| 97 <= b <= 122
    ||| 48 <= b <= 57
    ||| b == 45
    ||| b == 46
    ||| b == 95
    ||| b == 126
}

/// A character of the unreserved set.
pub open spec fn is_unreserved_char(c: char) -> bool {
    ||| 'A' <= c <= 'Z'
    ||| 'a' <= c <= 'z'
    ||| '0' <= c <= '9'
    ||| c == '-'
    ||| c == '.'
    ||| c == '_'
    ||| c == '~'
}

/// The upper-case hexadecimal digit of `n`, for `0 <= n < 16`.
pub open spec fn hex_digit(n: int) -> char {
    seq!['0', '1', '2', '3', '4', '5', '6', '7', '8', '9', 'A', 'B', 'C', 'D', 'E', 'F'][n]
}

/// What one byte becomes: itself when unreserved, else `%` and two hex digits.
pub open spec fn encoded_byte(b: u8) -> Seq<char> {
    if is_unreserved(b) {
        seq![b as char]
    } else {
        seq!['%', hex_digit(b as int / 16), hex_digit(b as int % 16)]
    }
}

/// The percent-encoding of a byte string.
pub open spec fn encoded_bytes(b: Seq<u8>) -> Seq<char>
    decreases b.len(),
{
    if b.len() == 0 {
        Seq::empty()
    } else {
        encoded_byte(b[0]) + encoded_bytes(b.drop_first())
    }
}

/// The percent-encoding of the UTF-8 form of `s`.
pub open spec fn encoded(s: Seq<char>) -> Seq<char> {
    encoded_bytes(encode_utf8(s))
}

/// Relies on `percent_encoding::percent_encode_byte`: `%` and the two
/// upper-case hex digits of the byte.
#[verifier::external_body]
fn byte_escape(b: u8) -> (r: &'static str)
    ensures
        r@ == seq!['%', hex_digit(b as int / 16), hex_digit(b as int % 16)],
{
    percent_encode_byte(b)
}

/// Whether `b` is in the unreserved set.
pub fn unreserved(b: u8) -> (r: bool)
    ensures
        r == is_unreserved(b),
{
    (65 <= b && b <= 90) || (97 <= b && b <= 122) || (48 <= b && b <= 57) || b == 45 || b == 46
        || b == 95 || b == 126
}

/// Percent-encodes every byte of the UTF-8 form of `input` but the unreserved
/// ones; a space becomes `%20`, hex digits are upper case.
pub fn percent_encode(input: &str) -> (r: String)
    ensures
        r@ == encoded(input@),
{
    let bytes = input.as_bytes();
    let mut out = String::new();
    let mut i: usize = 0;
    while i < bytes.len()
        invariant
            bytes@ == encode_utf8(input@),
            0 <= i <= bytes@.len(),
            out@ == encoded_bytes(bytes@.subrange(0, i as int)),
        decreases bytes@.len() - i,
    {
        let b = bytes[i];
        proof {
            lemma_encoded_bytes_append(bytes@.subrange(0, i as int), seq![b]);
            assert(bytes@.subrange(0, i as int + 1) =~= bytes@.subrange(0, i as int) + seq![b]);
            lemma_encoded_single(b);
        }
        if unreserved(b) {
            push_char(&mut out, b as char);
        } else {
            push_str(&mut out, byte_escape(b));
        }
        assert(out@ =~= encoded_bytes(bytes@.subrange(0, i as int + 1)));
        i = i + 1;
    }
    assert(bytes@.subrange(0, bytes@.len() as int) =~= bytes@);
    out
}

/// An unreserved ASCII character is its own UTF-8 form and is kept as it is.
proof fn lemma_unreserved_char_kept(c: char)
    requires
        is_unreserved_char(c),
    ensures
        encode_utf8(seq![c]) == seq![(c as u32) as u8],
        encoded_byte((c as u32) as u8) == seq![c],
{
    let v = c as u32;
    assert(v & 0x7F == v) by (bit_vector)
        requires v <= 0x7F;
    assert(seq![c].drop_first() =~= Seq::<char>::empty());
    assert(encode_utf8(Seq::<char>::empty()) == Seq::<u8>::empty());
    assert(encode_utf8(seq![c]) =~= seq![(v & 0x7F) as u8]);
}

/// A single byte encodes as `encoded_byte` says.
proof fn lemma_encoded_single(b: u8)
    ensures
        encoded_bytes(seq![b]) == encoded_byte(b),
{
    assert(seq![b].drop_first() =~= Seq::<u8>::empty());
    assert(encoded_bytes(Seq::<u8>::empty()) == Seq::<char>::empty());
    assert(encoded_bytes(seq![b]) =~= encoded_byte(b));
}

/// Encoding distributes over concatenation of byte strings.
proof fn lemma_encoded_bytes_append(a: Seq<u8>, b: Seq<u8>)
    ensures
        encoded_bytes(a + b) == encoded_bytes(a) + encoded_bytes(b),
    decreases a.len(),
{
    if a.len() == 0 {
        assert(a + b =~= b);
        assert(encoded_bytes(a) + encoded_bytes(b) =~= encoded_bytes(b));
    } else {
        assert((a + b).drop_first() =~= a.drop_first() + b);
        lemma_encoded_bytes_append(a.drop_first(), b);
        assert(encoded_bytes(a + b) =~= encoded_bytes(a) + encoded_bytes(b));
    }
}

/// A string made only of unreserved characters encodes to itself, so encoding
/// it again changes nothing either.
pub proof fn law_encode_keeps_unreserved(s: Seq<char>)
    requires
        forall|i: int| 0 <= i < s.len() ==> is_unreserved_char(#[trigger] s[i]),
    ensures
        encoded(s) == s,
        encoded(encoded(s)) == encoded(s),
    decreases s.len(),
{
    if s.len() > 0 {
        let c = s[0];
        let rest = s.drop_first();
        assert forall|i: int| 0 <= i < rest.len() implies is_unreserved_char(#[trigger] rest[i]) by {
            assert(rest[i] == s[i + 1]);
        }
        law_encode_keeps_unreserved(rest);
        lemma_unreserved_char_kept(c);
        let b = (c as u32) as u8;
        assert(encode_utf8(s) == encode_scalar(c as u32) + encode_utf8(rest));
        assert(encode_scalar(c as u32) =~= seq![b]);
        lemma_encoded_single(b);
        lemma_encoded_bytes_append(seq![b], encode_utf8(rest));
        assert(encoded(s) =~= seq![c] + rest);
        assert(s =~= seq![c] + rest);
    }
}

} // verus!
