//! Splitting a long text into posts that fit the weighted length limit.

use crate::text::{
    chars_of, find, lemma_split_str_len, lemma_trim_len, push_str, split_pattern, split_str, split_words,
    string_of, trim, trim_bounds, trimmed, words,
};
use vstd::prelude::*;
use vstd::utf8::{encode_scalar, encode_utf8};

verus! {

broadcast use vstd::string::group_string_axioms;

/// The highest code point that weighs one.
pub const BASIC_LATIN_MAX: u32 = 0x10FF;

/// The most a post may weigh.
pub const MAX_WEIGHTED_LEN: usize = 280;

/// The line that separates posts chosen by hand.
pub const SEPARATOR: &'static str = "\n---\n";

/// A character up to U+10FF weighs one; any other (CJK, Hangul, emoji) two.
pub open spec fn char_weight(c: char) -> nat {
    if (c as u32) <= BASIC_LATIN_MAX {
        1
    } else {
        2
    }
}

/// The weighted length of a text: the sum of its characters' weights.
pub open spec fn weight(s: Seq<char>) -> nat
    decreases s.len(),
{
    if s.len() == 0 {
        0
    } else {
        char_weight(s[0]) + weight(s.drop_first())
    }
}

/// Weights add up over concatenation.
pub proof fn lemma_weight_concat(a: Seq<char>, b: Seq<char>)
    ensures
        weight(a + b) == weight(a) + weight(b),
    decreases a.len(),
{
    if a.len() == 0 {
        assert(a + b =~= b);
    } else {
        assert((a + b).drop_first() =~= a.drop_first() + b);
        lemma_weight_concat(a.drop_first(), b);
    }
}

/// No character weighs more than its UTF-8 form is long.
proof fn lemma_weight_le_utf8(s: Seq<char>)
    ensures
        weight(s) <= encode_utf8(s).len(),
    decreases s.len(),
{
    broadcast use vstd::utf8::char_is_scalar;

    if s.len() > 0 {
        lemma_weight_le_utf8(s.drop_first());
        let c = s[0];
        vstd::utf8::char_is_scalar(c);
        let u = c as u32;
        if u <= BASIC_LATIN_MAX {
            assert(encode_scalar(u).len() >= 1);
        } else {
            assert(u > 0x10FF);
            assert(encode_scalar(u).len() >= 3);
        }
    }
}

/// The weighted length of `text`.
pub fn weighted_len(text: &str) -> (r: usize)
    ensures
        r == weight(text@),
{
    let n = text.as_bytes().len();
    let v = chars_of(text);
    proof {
        lemma_weight_le_utf8(text@);
    }
    let mut total: usize = 0;
    let mut i: usize = 0;
    while i < v.len()
        invariant
            i <= v@.len(),
            v@ == text@,
            weight(text@) <= n,
            total == weight(v@.take(i as int)),
        decreases v@.len() - i,
    {
        proof {
            lemma_weight_concat(v@.take(i as int), seq![v@[i as int]]);
            lemma_weight_concat(v@.take(i as int + 1), v@.skip(i as int + 1));
            lemma_weight_concat(v@.take(i as int), v@.skip(i as int));
            assert(v@.take(i as int + 1) =~= v@.take(i as int) + seq![v@[i as int]]);
            assert(v@.take(i as int + 1) + v@.skip(i as int + 1) =~= v@);
            assert(seq![v@[i as int]].drop_first() =~= Seq::<char>::empty());
            assert(weight(Seq::<char>::empty()) == 0);
            assert(seq![v@[i as int]][0] == v@[i as int]);
            assert(weight(seq![v@[i as int]]) == char_weight(v@[i as int]));
        }
        if (v[i] as u32) <= BASIC_LATIN_MAX {
            total = total + 1;
        } else {
            total = total + 2;
        }
        i = i + 1;
    }
    assert(v@.take(v@.len() as int) =~= v@);
    total
}

/// The view of a list of strings.
pub open spec fn strings_view(v: Seq<String>) -> Seq<Seq<char>> {
    v.map_values(|s: String| s@)
}

/// One step of greedy packing: the next piece joins the chunk being built,
/// with a space, while the result still fits; otherwise that chunk is closed
/// and the piece starts the next one.
pub open spec fn pack_step(state: (Seq<Seq<char>>, Seq<char>), piece: Seq<char>) -> (
    Seq<Seq<char>>,
    Seq<char>,
) {
    let (chunks, cur) = state;
    if cur.len() == 0 {
        (chunks, piece)
    } else if weight(cur + seq![' '] + piece) <= MAX_WEIGHTED_LEN {
        (chunks, cur + seq![' '] + piece)
    } else {
        (chunks.push(cur), piece)
    }
}

/// Greedy packing of pieces, in order: the closed chunks and the open one.
pub open spec fn pack(pieces: Seq<Seq<char>>) -> (Seq<Seq<char>>, Seq<char>)
    decreases pieces.len(),
{
    if pieces.len() == 0 {
        (Seq::empty(), Seq::empty())
    } else {
        pack_step(pack(pieces.drop_last()), pieces.last())
    }
}

/// The text's words packed greedily into chunks.
pub open spec fn word_chunks(text: Seq<char>) -> Seq<Seq<char>> {
    let (chunks, cur) = pack(words(text));
    if cur.len() > 0 {
        chunks.push(cur)
    } else {
        chunks
    }
}

/// A character that ends a sentence when a space follows.
pub open spec fn is_terminator(c: char) -> bool {
    c == '.' || c == '!' || c == '?'
}

/// The first place of `.`, `!` or `?` followed by a space, if any.
pub open spec fn first_terminator(s: Seq<char>) -> Option<int>
    decreases s.len(),
{
    if s.len() < 2 {
        None
    } else if is_terminator(s[0]) && s[1] == ' ' {
        Some(0)
    } else {
        match first_terminator(s.drop_first()) {
            Some(i) => Some(i + 1),
            None => None,
        }
    }
}

/// The sentences of `s`: up to and with the first terminator, trimmed, then
/// the sentences of the trimmed rest after its space.
pub open spec fn sentences(s: Seq<char>) -> Seq<Seq<char>>
    decreases s.len(),
    via sentences_decreases
{
    if s.len() == 0 {
        Seq::empty()
    } else {
        match first_terminator(s) {
            Some(i) => if 0 <= i && i + 2 <= s.len() {
                seq![trim(s.take(i + 1))] + sentences(trim(s.skip(i + 2)))
            } else {
                seq![trim(s)]
            },
            None => seq![trim(s)],
        }
    }
}

#[via_fn]
proof fn sentences_decreases(s: Seq<char>) {
    if let Some(i) = first_terminator(s) {
        if 0 <= i && i + 2 <= s.len() {
            lemma_trim_len(s.skip(i + 2));
        }
    }
}

/// The text's sentences packed greedily; a last chunk that is too heavy is
/// split by words.
pub open spec fn sentence_chunks(text: Seq<char>) -> Seq<Seq<char>> {
    let (chunks, cur) = pack(sentences(trim(text)));
    if cur.len() == 0 {
        chunks
    } else if weight(cur) <= MAX_WEIGHTED_LEN {
        chunks.push(cur)
    } else {
        chunks + word_chunks(cur)
    }
}

/// The chunks of a list of paragraphs: each trimmed; empty ones dropped;
/// one that fits kept whole, a heavier one split by sentences.
pub open spec fn paragraph_chunks(paragraphs: Seq<Seq<char>>) -> Seq<Seq<char>>
    decreases paragraphs.len(),
{
    if paragraphs.len() == 0 {
        Seq::empty()
    } else {
        let acc = paragraph_chunks(paragraphs.drop_last());
        let t = trim(paragraphs.last());
        if t.len() == 0 {
            acc
        } else if weight(t) <= MAX_WEIGHTED_LEN {
            acc.push(t)
        } else {
            acc + sentence_chunks(t)
        }
    }
}

/// Splitting a text that is too heavy: by paragraphs where it has blank
/// lines, else by sentences where it has more than one, else by words.
pub open spec fn auto_chunks(text: Seq<char>) -> Seq<Seq<char>> {
    let paragraphs = split_str(text, "\n\n"@);
    if paragraphs.len() > 1 {
        paragraph_chunks(paragraphs)
    } else if sentence_chunks(text).len() > 1 {
        sentence_chunks(text)
    } else {
        word_chunks(text)
    }
}

/// The pieces trimmed, with empty ones dropped.
pub open spec fn nonempty_trimmed(pieces: Seq<Seq<char>>) -> Seq<Seq<char>>
    decreases pieces.len(),
{
    if pieces.len() == 0 {
        Seq::empty()
    } else {
        let acc = nonempty_trimmed(pieces.drop_last());
        let t = trim(pieces.last());
        if t.len() == 0 {
            acc
        } else {
            acc.push(t)
        }
    }
}

/// The posts of a text: the trimmed non-empty parts between separator lines
/// where there are any; else the text itself if it fits; else `auto_chunks`.
pub open spec fn thread_chunks(text: Seq<char>) -> Seq<Seq<char>> {
    let parts = nonempty_trimmed(split_str(text, SEPARATOR@));
    if find(text, SEPARATOR@) is Some && parts.len() > 0 {
        parts
    } else if weight(text) <= MAX_WEIGHTED_LEN {
        seq![text]
    } else {
        auto_chunks(text)
    }
}

/// The weight of a piece joined to another with a space.
proof fn lemma_joined_weight(a: Seq<char>, b: Seq<char>)
    ensures
        weight(a + seq![' '] + b) == weight(a) + 1 + weight(b),
{
    lemma_weight_concat(a, seq![' ']);
    lemma_weight_concat(a + seq![' '], b);
    assert(seq![' '].drop_first() =~= Seq::<char>::empty());
    assert(weight(Seq::<char>::empty()) == 0);
    assert(weight(seq![' ']) == 1);
}

/// One step of greedy packing on the chunks so far and the open chunk.
fn pack_piece(chunks: &mut Vec<String>, cur: &mut String, piece: String)
    ensures
        (strings_view(final(chunks)@), final(cur)@) == pack_step(
            (strings_view(old(chunks)@), old(cur)@),
            piece@,
        ),
{
    let ghost before = strings_view(chunks@);
    if cur.as_str().is_empty() {
        *cur = piece;
        return;
    }
    let wc = weighted_len(cur.as_str());
    let wp = weighted_len(piece.as_str());
    proof {
        lemma_joined_weight(cur@, piece@);
    }
    if wc <= MAX_WEIGHTED_LEN && wp <= MAX_WEIGHTED_LEN && wc + 1 + wp <= MAX_WEIGHTED_LEN {
        proof {
            reveal_strlit(" ");
        }
        push_str(cur, " ");
        push_str(cur, piece.as_str());
        assert(cur@ =~= old(cur)@ + seq![' '] + piece@);
    } else {
        let done = cur.clone();
        *cur = piece;
        chunks.push(done);
        assert(strings_view(chunks@) =~= before.push(old(cur)@));
    }
}

/// Splits on white space and packs the words greedily into chunks that fit.
pub fn split_by_words(text: &str) -> (r: Vec<String>)
    ensures
        strings_view(r@) == word_chunks(text@),
{
    let pieces = split_words(text);
    let ghost ws = strings_view(pieces@);
    let mut chunks: Vec<String> = Vec::new();
    let mut cur = String::new();
    let mut i: usize = 0;
    assert(ws.take(0) =~= Seq::<Seq<char>>::empty());
    assert(strings_view(chunks@) =~= Seq::<Seq<char>>::empty());
    while i < pieces.len()
        invariant
            i <= pieces@.len(),
            ws == strings_view(pieces@),
            ws == words(text@),
            (strings_view(chunks@), cur@) == pack(ws.take(i as int)),
        decreases pieces@.len() - i,
    {
        assert(ws.take(i as int + 1).drop_last() =~= ws.take(i as int));
        pack_piece(&mut chunks, &mut cur, pieces[i].clone());
        i = i + 1;
    }
    assert(ws.take(ws.len() as int) =~= ws);
    if !cur.as_str().is_empty() {
        let ghost before = strings_view(chunks@);
        chunks.push(cur);
        assert(strings_view(chunks@) =~= before.push(cur@));
    }
    chunks
}

/// The sentences of a text, one at a time.
pub struct SentenceIter {
    chars: Vec<char>,
    lo: usize,
    hi: usize,
}

/// Where `first_terminator` lands, given that there is none before `j`.
proof fn lemma_first_terminator(s: Seq<char>, j: int)
    requires
        0 <= j,
        forall|k: int| 0 <= k < j ==> !(k + 1 < s.len() && is_terminator(#[trigger] s[k]) && s[k + 1] == ' '),
    ensures
        j + 1 < s.len() && is_terminator(s[j]) && s[j + 1] == ' ' ==> first_terminator(s) == Some(j),
        j + 1 >= s.len() ==> first_terminator(s) is None,
    decreases j,
{
    if s.len() >= 2 && j > 0 {
        let t = s.drop_first();
        assert forall|k: int| 0 <= k < j - 1 implies !(k + 1 < t.len() && is_terminator(#[trigger] t[k]) && t[k + 1] == ' ') by {
            if k + 1 < t.len() {
                assert(t[k] == s[k + 1]);
                assert(t[k + 1] == s[k + 2]);
                assert(!(k + 2 < s.len() && is_terminator(s[k + 1]) && s[k + 2] == ' '));
            }
        }
        lemma_first_terminator(t, j - 1);
    }
}

impl SentenceIter {
    /// What is left to read.
    pub closed spec fn remaining(&self) -> Seq<char> {
        self.chars@.subrange(self.lo as int, self.hi as int)
    }

    /// The bounds lie within the text.
    pub closed spec fn wf(&self) -> bool {
        self.lo <= self.hi <= self.chars@.len()
    }

    /// Starts on the trimmed text.
    pub fn new(text: &str) -> (r: SentenceIter)
        ensures
            r.wf(),
            r.remaining() == trim(text@),
    {
        let chars = chars_of(text);
        assert(chars@.subrange(0, chars@.len() as int) =~= chars@);
        let (lo, hi) = trim_bounds(&chars, 0, chars.len());
        SentenceIter { chars, lo, hi }
    }

    /// The next sentence, if anything is left.
    pub fn next_sentence(&mut self) -> (r: Option<String>)
        requires
            old(self).wf(),
        ensures
            final(self).wf(),
            match r {
                None => old(self).remaining().len() == 0 && final(self).remaining() == old(self).remaining(),
                Some(x) => {
                    &&& old(self).remaining().len() > 0
                    &&& final(self).remaining().len() < old(self).remaining().len()
                    &&& sentences(old(self).remaining()) == seq![x@] + sentences(final(self).remaining())
                },
            },
    {
        let ghost rem = self.remaining();
        if self.lo >= self.hi {
            return None;
        }
        let mut p = self.lo;
        let mut found = false;
        while p + 1 < self.hi && !found
            invariant
                self.lo <= p < self.hi <= self.chars@.len(),
                rem == self.chars@.subrange(self.lo as int, self.hi as int),
                forall|k: int| 0 <= k < p - self.lo ==> !(k + 1 < rem.len() && is_terminator(#[trigger] rem[k]) && rem[k + 1] == ' '),
                found ==> p + 1 < self.hi && is_terminator(self.chars@[p as int]) && self.chars@[p + 1] == ' ',
            decreases self.hi - p + (if found { 0int } else { 1int }),
        {
            let c = self.chars[p];
            if (c == '.' || c == '!' || c == '?') && self.chars[p + 1] == ' ' {
                found = true;
            } else {
                assert(rem[p - self.lo] == self.chars@[p as int]);
                p = p + 1;
            }
        }
        let i = p - self.lo;
        proof {
            lemma_first_terminator(rem, i as int);
        }
        if found {
            let (a, b) = trim_bounds(&self.chars, self.lo, p + 1);
            let sentence = string_of(&self.chars, a, b);
            let (c, d) = trim_bounds(&self.chars, p + 2, self.hi);
            proof {
                assert(rem.take(i + 1) =~= self.chars@.subrange(self.lo as int, p + 1));
                assert(rem.skip(i + 2) =~= self.chars@.subrange(p + 2, self.hi as int));
                lemma_trim_len(rem.skip(i + 2));
            }
            self.lo = c;
            self.hi = d;
            Some(sentence)
        } else {
            assert(rem[p - self.lo] == self.chars@[p as int]);
            assert(!(i + 1 < rem.len() && is_terminator(rem[i as int]) && rem[i + 1] == ' '));
            proof {
                lemma_first_terminator(rem, i + 1);
            }
            let (a, b) = trim_bounds(&self.chars, self.lo, self.hi);
            let sentence = string_of(&self.chars, a, b);
            self.lo = self.hi;
            assert(self.remaining() =~= Seq::<char>::empty());
            Some(sentence)
        }
    }
}

/// Packs the text's sentences greedily into chunks that fit; a last chunk
/// that is still too heavy is split by words.
pub fn split_by_sentences(text: &str) -> (r: Vec<String>)
    ensures
        strings_view(r@) == sentence_chunks(text@),
{
    let mut it = SentenceIter::new(text);
    let ghost all = sentences(trim(text@));
    let ghost mut consumed: Seq<Seq<char>> = Seq::empty();
    let mut chunks: Vec<String> = Vec::new();
    let mut cur = String::new();
    assert(strings_view(chunks@) =~= Seq::<Seq<char>>::empty());
    assert(consumed + all =~= all);
    loop
        invariant
            it.wf(),
            consumed + sentences(it.remaining()) == all,
            (strings_view(chunks@), cur@) == pack(consumed),
        ensures
            consumed == all,
            (strings_view(chunks@), cur@) == pack(consumed),
        decreases it.remaining().len(),
    {
        match it.next_sentence() {
            None => {
                assert(it.remaining() =~= Seq::<char>::empty());
                assert(sentences(Seq::<char>::empty()) =~= Seq::<Seq<char>>::empty());
                assert(consumed =~= all);
                break;
            },
            Some(part) => {
                proof {
                    assert(consumed.push(part@).drop_last() =~= consumed);
                    assert(consumed.push(part@) + sentences(it.remaining()) =~= consumed + (seq![part@]
                        + sentences(it.remaining())));
                }
                pack_piece(&mut chunks, &mut cur, part);
                proof {
                    consumed = consumed.push(part@);
                }
            },
        }
    }
    if !cur.as_str().is_empty() {
        if weighted_len(cur.as_str()) <= MAX_WEIGHTED_LEN {
            let ghost before = strings_view(chunks@);
            chunks.push(cur);
            assert(strings_view(chunks@) =~= before.push(cur@));
        } else {
            let mut rest = split_by_words(cur.as_str());
            let ghost before = strings_view(chunks@);
            let ghost tail = strings_view(rest@);
            chunks.append(&mut rest);
            assert(strings_view(chunks@) =~= before + tail);
        }
    }
    chunks
}

/// Splits a text that is too heavy for one post: by paragraphs where it has
/// blank lines, else by sentences where it has more than one, else by words.
pub fn auto_split(text: &str) -> (r: Vec<String>)
    ensures
        strings_view(r@) == auto_chunks(text@),
{
    proof {
        reveal_strlit("\n\n");
    }
    let paragraphs = split_pattern(text, "\n\n");
    if paragraphs.len() > 1 {
        let ghost ps = strings_view(paragraphs@);
        let mut result: Vec<String> = Vec::new();
        let mut i: usize = 0;
        assert(ps.take(0) =~= Seq::<Seq<char>>::empty());
        assert(strings_view(result@) =~= Seq::<Seq<char>>::empty());
        while i < paragraphs.len()
            invariant
                i <= paragraphs@.len(),
                ps == strings_view(paragraphs@),
                strings_view(result@) == paragraph_chunks(ps.take(i as int)),
            decreases paragraphs@.len() - i,
        {
            assert(ps.take(i as int + 1).drop_last() =~= ps.take(i as int));
            let t = trimmed(paragraphs[i].as_str());
            let ghost before = strings_view(result@);
            if !t.as_str().is_empty() {
                if weighted_len(t.as_str()) <= MAX_WEIGHTED_LEN {
                    result.push(t);
                    assert(strings_view(result@) =~= before.push(t@));
                } else {
                    let mut more = split_by_sentences(t.as_str());
                    let ghost tail = strings_view(more@);
                    result.append(&mut more);
                    assert(strings_view(result@) =~= before + tail);
                }
            }
            i = i + 1;
        }
        assert(ps.take(ps.len() as int) =~= ps);
        return result;
    }
    let sentence_chunks = split_by_sentences(text);
    if sentence_chunks.len() > 1 {
        return sentence_chunks;
    }
    split_by_words(text)
}

/// Splits a text into posts.  Separator lines (`---` on a line of its own)
/// split it where the author put them; otherwise a text that fits is one
/// post, and a heavier one is split by `auto_split`.
pub fn split_text(text: &str) -> (r: Vec<String>)
    ensures
        strings_view(r@) == thread_chunks(text@),
{
    proof {
        reveal_strlit("\n---\n");
    }
    let raw = split_pattern(text, SEPARATOR);
    proof {
        lemma_split_str_len(text@, SEPARATOR@);
    }
    if raw.len() > 1 {
        let ghost ps = strings_view(raw@);
        let mut parts: Vec<String> = Vec::new();
        let mut i: usize = 0;
        assert(ps.take(0) =~= Seq::<Seq<char>>::empty());
        assert(strings_view(parts@) =~= Seq::<Seq<char>>::empty());
        while i < raw.len()
            invariant
                i <= raw@.len(),
                ps == strings_view(raw@),
                strings_view(parts@) == nonempty_trimmed(ps.take(i as int)),
            decreases raw@.len() - i,
        {
            assert(ps.take(i as int + 1).drop_last() =~= ps.take(i as int));
            let t = trimmed(raw[i].as_str());
            let ghost before = strings_view(parts@);
            if !t.as_str().is_empty() {
                parts.push(t);
                assert(strings_view(parts@) =~= before.push(t@));
            }
            i = i + 1;
        }
        assert(ps.take(ps.len() as int) =~= ps);
        if parts.len() > 0 {
            return parts;
        }
    }
    if weighted_len(text) <= MAX_WEIGHTED_LEN {
        let mut one: Vec<String> = Vec::new();
        one.push(text.to_owned());
        assert(strings_view(one@) =~= seq![text@]);
        return one;
    }
    auto_split(text)
}

/// The first chunk that is too heavy to post, with its weight.
pub fn validate_chunks(chunks: &Vec<String>) -> (r: Result<(), (usize, usize)>)
    ensures
        match r {
            Ok(()) => forall|k: int| 0 <= k < chunks@.len() ==> weight(#[trigger] chunks@[k]@) <= MAX_WEIGHTED_LEN,
            Err((i, w)) => {
                &&& i < chunks@.len()
                &&& w == weight(chunks@[i as int]@)
                &&& w > MAX_WEIGHTED_LEN
                &&& forall|k: int| 0 <= k < i ==> weight(#[trigger] chunks@[k]@) <= MAX_WEIGHTED_LEN
            },
        },
{
    let mut i: usize = 0;
    while i < chunks.len()
        invariant
            i <= chunks@.len(),
            forall|k: int| 0 <= k < i ==> weight(#[trigger] chunks@[k]@) <= MAX_WEIGHTED_LEN,
        decreases chunks@.len() - i,
    {
        let w = weighted_len(chunks[i].as_str());
        if w > MAX_WEIGHTED_LEN {
            return Err((i, w));
        }
        i = i + 1;
    }
    Ok(())
}

} // verus!
