//! What comes back when the tokens of a text are decoded one by one.
use vstd::prelude::*;
use vstd::utf8::{
    decode_first_scalar, decode_utf8_encode_utf8, decode_utf8_first_scalar, encode_utf8, encode_utf8_decode_utf8, encode_utf8_valid_utf8,
    length_of_first_scalar, partial_valid_partial_invalid_utf8, pop_first_scalar,
    take_first_scalar, valid_utf8, valid_utf8_concat,
};

use crate::alphabet::{law_bytes_read_back, law_reading_concatenates, read_bytes, written};
use crate::bpe::{law_merging_keeps_text, letters, tokens_of};
use crate::text::{is_cut_at, is_cut_short};
use crate::tokenizer::{
    all_tokens, chunk_tokens, chunks_from, decoded, encoded, given_out, parts_of, stretch, Chunk,
};
use crate::vocabulary::{lemma_special_stands, special_from, specials_not_empty, Words};

verus! {

/// The words of tokens, one behind the other.
pub open spec fn spelled(words: Map<u32, Seq<char>>, tokens: Seq<usize>) -> Seq<char>
    decreases tokens.len(),
{
    if tokens.len() == 0 {
        Seq::empty()
    } else {
        spelled(words, tokens.drop_last()) + words[tokens.last() as u32]
    }
}

/// The word of each word's token is that word.
pub open spec fn is_consistent(words: Words) -> bool {
    &&& forall|word: Seq<char>| #[trigger]
        words.tokens.contains_key(word) ==> {
            &&& words.words.contains_key(words.tokens[word])
            &&& words.words[words.tokens[word]] == word
        }
    &&& forall|k: int|
        0 <= k < words.specials.len() ==> {
            &&& words.words.contains_key((#[trigger] words.specials[k]).1)
            &&& words.words[words.specials[k].1] == words.specials[k].0
        }
}

/// The vocabulary knows each of the parts.
pub open spec fn knows_all(words: Words, parts: Seq<Seq<char>>) -> bool {
    forall|i: int| 0 <= i < parts.len() ==> words.tokens.contains_key(#[trigger] parts[i])
}

/// The vocabulary knows each part of a chunk.
pub open spec fn knows_chunk(words: Words, chars: Seq<char>, chunk: Chunk) -> bool {
    match chunk {
        Chunk::SpecialId(_) => true,
        Chunk::Text(from, to) => knows_all(
            words,
            parts_of(words, chars.subrange(from as int, to as int)),
        ),
    }
}

/// The vocabulary knows each part into which a text is merged.
pub open spec fn knows_text(words: Words, text: Seq<char>) -> bool {
    let chars = written(encode_utf8(text));
    knows_chunks(words, chars, chunks_from(words.specials, chars, 0, 0))
}

/// The vocabulary knows each part of each chunk.
pub open spec fn knows_chunks(words: Words, chars: Seq<char>, chunks: Seq<Chunk>) -> bool {
    forall|k: int| 0 <= k < chunks.len() ==> knows_chunk(words, chars, #[trigger] chunks[k])
}

/// Each token has a word.
pub open spec fn have_words(words: Words, tokens: Seq<usize>) -> bool {
    forall|i: int|
        0 <= i < tokens.len() ==> words.words.contains_key(#[trigger] tokens[i] as u32)
}

proof fn lemma_spelled_concat(words: Map<u32, Seq<char>>, a: Seq<usize>, b: Seq<usize>)
    ensures
        spelled(words, a + b) == spelled(words, a) + spelled(words, b),
    decreases b.len(),
{
    if b.len() == 0 {
        assert(a + b =~= a);
        assert(spelled(words, a) + spelled(words, b) =~= spelled(words, a));
    } else {
        lemma_spelled_concat(words, a, b.drop_last());
        assert((a + b).drop_last() =~= a + b.drop_last());
        assert(spelled(words, a + b) =~= spelled(words, a) + spelled(words, b));
    }
}

pub(crate) proof fn lemma_all_tokens_concat(words: Words, chars: Seq<char>, a: Seq<Chunk>, b: Seq<Chunk>)
    ensures
        all_tokens(words, chars, a + b) == all_tokens(words, chars, a) + all_tokens(
            words,
            chars,
            b,
        ),
    decreases b.len(),
{
    if b.len() == 0 {
        assert(a + b =~= a);
        assert(all_tokens(words, chars, a) + all_tokens(words, chars, b) =~= all_tokens(
            words,
            chars,
            a,
        ));
    } else {
        lemma_all_tokens_concat(words, chars, a, b.drop_last());
        assert((a + b).drop_last() =~= a + b.drop_last());
        assert(all_tokens(words, chars, a + b) =~= all_tokens(words, chars, a) + all_tokens(
            words,
            chars,
            b,
        ));
    }
}

proof fn lemma_letters_flatten(text: Seq<char>)
    ensures
        letters(text).flatten() == text,
    decreases text.len(),
{
    if text.len() > 0 {
        lemma_letters_flatten(text.drop_first());
        assert(letters(text).drop_first() =~= letters(text.drop_first()));
        assert(letters(text).flatten() =~= text);
    }
}

proof fn lemma_parts_spell(words: Words, parts: Seq<Seq<char>>)
    requires
        is_consistent(words),
        knows_all(words, parts),
    ensures
        spelled(words.words, tokens_of(words.tokens, parts)) == parts.flatten(),
        have_words(words, tokens_of(words.tokens, parts)),
    decreases parts.len(),
{
    parts.lemma_flatten_and_flatten_alt_are_equivalent();
    if parts.len() > 0 {
        let before = parts.drop_last();
        assert(knows_all(words, before)) by {
            assert forall|i: int| 0 <= i < before.len() implies words.tokens.contains_key(
                #[trigger] before[i],
            ) by {
                assert(before[i] == parts[i]);
            }
        }
        lemma_parts_spell(words, before);
        before.lemma_flatten_and_flatten_alt_are_equivalent();
        let n = parts.len() - 1;
        assert(words.tokens.contains_key(parts[n]));
        let all = tokens_of(words.tokens, parts);
        assert(all.drop_last() =~= tokens_of(words.tokens, before));
    }
}

proof fn lemma_chunk_spells(words: Words, chars: Seq<char>, from: int, to: int)
    requires
        is_consistent(words),
        0 <= from <= to <= chars.len(),
        to <= usize::MAX,
        knows_chunks(words, chars, stretch(from, to)),
    ensures
        spelled(words.words, all_tokens(words, chars, stretch(from, to))) == chars.subrange(
            from,
            to,
        ),
        have_words(words, all_tokens(words, chars, stretch(from, to))),
{
    let chunks = stretch(from, to);
    if from < to {
        let part = chars.subrange(from, to);
        assert(knows_chunk(words, chars, chunks[0]));
        lemma_parts_spell(words, parts_of(words, part));
        law_merging_keeps_text(words.ranks, letters(part));
        lemma_letters_flatten(part);
        assert(chunks.drop_last() =~= Seq::<Chunk>::empty());
        reveal_with_fuel(all_tokens, 2);
        assert(all_tokens(words, chars, chunks) =~= chunk_tokens(words, chars, chunks[0]));
    } else {
        assert(chars.subrange(from, to) =~= Seq::<char>::empty());
    }
}

proof fn lemma_chunks_spell(words: Words, chars: Seq<char>, last: int, cursor: int)
    requires
        is_consistent(words),
        specials_not_empty(words.specials),
        0 <= last <= cursor <= chars.len(),
        chars.len() <= usize::MAX,
        knows_chunks(words, chars, chunks_from(words.specials, chars, last, cursor)),
    ensures
        ({
            let tokens = all_tokens(
                words,
                chars,
                chunks_from(words.specials, chars, last, cursor),
            );
            &&& spelled(words.words, tokens) == chars.skip(last)
            &&& have_words(words, tokens)
        }),
    decreases chars.len() - cursor,
{
    let specials = words.specials;
    let chunks = chunks_from(specials, chars, last, cursor);
    if cursor >= chars.len() {
        lemma_chunk_spells(words, chars, last, chars.len() as int);
        assert(chars.subrange(last, chars.len() as int) =~= chars.skip(last));
    } else {
        match special_from(specials, chars, cursor, 0) {
            Some(k) => {
                lemma_special_stands(specials, chars, cursor, 0);
                let word = specials[k].0;
                let id = specials[k].1;
                let next = cursor + word.len();
                assert(word.len() > 0);
                let head = stretch(last, cursor);
                let special = seq![Chunk::SpecialId(id)];
                let rest = chunks_from(specials, chars, next, next);
                assert(chunks =~= head + special + rest);
                assert(knows_chunks(words, chars, head)) by {
                    assert forall|i: int| 0 <= i < head.len() implies knows_chunk(
                        words,
                        chars,
                        #[trigger] head[i],
                    ) by {
                        assert(head[i] == chunks[i]);
                    }
                }
                assert(knows_chunks(words, chars, rest)) by {
                    assert forall|i: int| 0 <= i < rest.len() implies knows_chunk(
                        words,
                        chars,
                        #[trigger] rest[i],
                    ) by {
                        assert(rest[i] == chunks[head.len() + 1 + i]);
                    }
                }
                lemma_chunk_spells(words, chars, last, cursor);
                lemma_chunks_spell(words, chars, next, next);
                let a = all_tokens(words, chars, head);
                let b = all_tokens(words, chars, special);
                let c = all_tokens(words, chars, rest);
                lemma_all_tokens_concat(words, chars, head, special);
                lemma_all_tokens_concat(words, chars, head + special, rest);
                assert(special.drop_last() =~= Seq::<Chunk>::empty());
                reveal_with_fuel(all_tokens, 2);
                reveal_with_fuel(spelled, 2);
                assert(b =~= seq![id as usize]);
                assert(b.drop_last() =~= Seq::<usize>::empty());
                assert(spelled(words.words, b) =~= word);
                lemma_spelled_concat(words.words, a, b);
                lemma_spelled_concat(words.words, a + b, c);
                assert(chars.skip(last) =~= chars.subrange(last, cursor) + word + chars.skip(
                    next,
                ));
                assert(have_words(words, a + b + c));
            },
            None => {
                lemma_chunks_spell(words, chars, last, cursor + 1);
            },
        }
    }
}

/// The words of a text's tokens are, one behind the other, the characters that are written for its
/// bytes, where the vocabulary is consistent and knows every part.
pub proof fn law_tokens_spell_text(words: Words, text: Seq<char>)
    requires
        is_consistent(words),
        specials_not_empty(words.specials),
        knows_text(words, text),
        encode_utf8(text).len() <= usize::MAX,
    ensures
        spelled(words.words, encoded(words, text)) == written(encode_utf8(text)),
        have_words(words, encoded(words, text)),
{
    let chars = written(encode_utf8(text));
    lemma_chunks_spell(words, chars, 0, 0);
    assert(chars.skip(0) =~= chars);
}

/// What is given out for tokens that are decoded one by one, and which bytes are kept at the end,
/// after `kept` were at the start.
pub open spec fn streamed(words: Words, kept: Seq<u8>, tokens: Seq<usize>) -> (Seq<char>, Seq<u8>)
    decreases tokens.len(),
{
    if tokens.len() == 0 {
        (Seq::empty(), kept)
    } else {
        let before = streamed(words, kept, tokens.drop_last());
        let now = decoded(words, before.1, tokens.last() as u32);
        (before.0 + now.0, now.1)
    }
}

pub(crate) proof fn lemma_encode_concat(a: Seq<char>, b: Seq<char>)
    ensures
        encode_utf8(a + b) == encode_utf8(a) + encode_utf8(b),
    decreases a.len(),
{
    if a.len() == 0 {
        assert(a + b =~= b);
        assert(encode_utf8(a) + encode_utf8(b) =~= encode_utf8(b));
    } else {
        lemma_encode_concat(a.drop_first(), b);
        assert((a + b).drop_first() =~= a.drop_first() + b);
        assert(encode_utf8(a + b) =~= encode_utf8(a) + encode_utf8(b));
    }
}

/// The first bytes of a text are a text, or a text that was cut off inside its last character.
pub proof fn law_prefix_is_text_or_cut(bytes: Seq<u8>, n: int)
    requires
        valid_utf8(bytes),
        0 <= n <= bytes.len(),
    ensures
        valid_utf8(bytes.take(n)) || is_cut_short(bytes.take(n)),
    decreases bytes.len(),
{
    let part = bytes.take(n);
    if n > 0 {
        let len = length_of_first_scalar(bytes);
        let c = decode_first_scalar(bytes) as char;
        decode_utf8_first_scalar(bytes);
        let whole = encode_utf8(seq![c]);
        assert(seq![c].drop_first() =~= Seq::<char>::empty());
        reveal_with_fuel(encode_utf8, 2);
        assert(whole =~= take_first_scalar(bytes));
        encode_utf8_valid_utf8(seq![c]);
        if n < len {
            assert(part.take(0) =~= Seq::<u8>::empty());
            assert(part.skip(0) =~= whole.take(n));
            assert(is_cut_at(part, 0, c));
        } else {
            let rest = pop_first_scalar(bytes);
            law_prefix_is_text_or_cut(rest, n - len);
            let tail = rest.take(n - len);
            assert(part =~= whole + tail);
            if valid_utf8(tail) {
                valid_utf8_concat(whole, tail);
            } else {
                let (m, d) = choose|m: int, d: char| is_cut_at(tail, m, d);
                valid_utf8_concat(whole, tail.take(m));
                assert(part.take(len + m) =~= whole + tail.take(m));
                assert(part.skip(len + m) =~= tail.skip(m));
                assert(is_cut_at(part, len + m, d));
            }
        }
    }
}

proof fn lemma_text_behind_text(a: Seq<u8>, b: Seq<u8>)
    requires
        valid_utf8(a),
        valid_utf8(a + b),
    ensures
        valid_utf8(b),
{
    let whole = a + b;
    assert(whole.subrange(0, a.len() as int) =~= a);
    assert(whole.subrange(a.len() as int, whole.len() as int) =~= b);
    if !valid_utf8(b) {
        partial_valid_partial_invalid_utf8(whole, a.len() as int);
    }
}

/// Behind the bytes of a text that was given out stand the bytes that are kept, which are none or
/// no text.
spec fn is_stream_state(out: Seq<char>, kept: Seq<u8>, bytes: Seq<u8>) -> bool {
    &&& encode_utf8(out) + kept == bytes
    &&& kept.len() == 0 || !valid_utf8(kept)
}

proof fn lemma_stream(words: Words, tokens: Seq<usize>, text: Seq<char>)
    requires
        have_words(words, tokens),
        read_bytes(spelled(words.words, tokens)).is_prefix_of(encode_utf8(text)),
    ensures
        ({
            let s = streamed(words, Seq::empty(), tokens);
            is_stream_state(s.0, s.1, read_bytes(spelled(words.words, tokens)))
        }),
    decreases tokens.len(),
{
    let whole = encode_utf8(text);
    let all = read_bytes(spelled(words.words, tokens));
    encode_utf8_valid_utf8(text);
    if tokens.len() > 0 {
        let before = tokens.drop_last();
        let token = tokens.last() as u32;
        assert(words.words.contains_key(tokens[tokens.len() - 1] as u32));
        let word = words.words[token];
        law_reading_concatenates(spelled(words.words, before), word);
        let seen = read_bytes(spelled(words.words, before));
        assert(all == seen + read_bytes(word));
        assert(seen.is_prefix_of(whole));
        assert(have_words(words, before)) by {
            assert forall|i: int| 0 <= i < before.len() implies words.words.contains_key(
                #[trigger] before[i] as u32,
            ) by {
                assert(before[i] == tokens[i]);
            }
        }
        lemma_stream(words, before, text);
        let s = streamed(words, Seq::empty(), before);
        let bytes = s.1 + read_bytes(word);
        let given = encode_utf8(s.0);
        assert(given + bytes =~= all);
        encode_utf8_valid_utf8(s.0);
        let rest = whole.skip(given.len() as int);
        assert(all =~= whole.subrange(0, all.len() as int));
        assert forall|i: int| 0 <= i < all.len() implies (given + bytes)[i] == whole[i] by {
            assert(whole.subrange(0, all.len() as int)[i] == whole[i]);
        }
        assert forall|i: int| 0 <= i < given.len() implies given[i] == whole[i] by {
            assert((given + bytes)[i] == given[i]);
        }
        assert forall|i: int| 0 <= i < bytes.len() implies bytes[i] == rest[i] by {
            assert((given + bytes)[given.len() + i] == bytes[i]);
        }
        assert(whole =~= given + rest);
        lemma_text_behind_text(given, rest);
        law_prefix_is_text_or_cut(rest, bytes.len() as int);
        assert(rest.take(bytes.len() as int) =~= bytes);
        let now = given_out(bytes);
        if valid_utf8(bytes) {
            lemma_encode_concat(s.0, now.0);
            decode_utf8_encode_utf8(bytes);
            assert(encode_utf8(s.0 + now.0) + now.1 =~= all);
        } else {
            assert(s.0 + now.0 =~= s.0);
        }
    }
}

/// When the tokens of a text are decoded one by one, the text comes back and no byte is kept,
/// where the vocabulary is consistent and knows every part of the text, and the byte `0xae` does
/// not occur in it.
pub proof fn law_text_comes_back(words: Words, text: Seq<char>)
    requires
        is_consistent(words),
        specials_not_empty(words.specials),
        knows_text(words, text),
        encode_utf8(text).len() <= usize::MAX,
        !encode_utf8(text).contains(0xae),
    ensures
        streamed(words, Seq::empty(), encoded(words, text)) == (text, Seq::<u8>::empty()),
{
    let tokens = encoded(words, text);
    let bytes = encode_utf8(text);
    law_tokens_spell_text(words, text);
    law_bytes_read_back(bytes);
    lemma_stream(words, tokens, text);
    let s = streamed(words, Seq::empty(), tokens);
    encode_utf8_valid_utf8(text);
    encode_utf8_valid_utf8(s.0);
    lemma_text_behind_text(encode_utf8(s.0), s.1);
    assert(s.1 =~= Seq::<u8>::empty());
    assert(encode_utf8(s.0) =~= bytes);
    encode_utf8_decode_utf8(s.0);
    encode_utf8_decode_utf8(text);
}

/// A token that the vocabulary does not know gives nothing, and the bytes that wait go on waiting.
pub proof fn law_unknown_token_is_passed_over(words: Words, kept: Seq<u8>, token: u32)
    requires
        !words.words.contains_key(token),
    ensures
        decoded(words, kept, token).0.len() == 0,
        decoded(words, kept, token).1 == kept,
{
}

/// When the bytes that wait and those of a token's word are together those of a text, the text is
/// given out and nothing waits. When they are its first bytes and end inside of a character,
/// nothing is given out and all of them wait.
pub proof fn law_text_is_given_out_when_whole(
    words: Words,
    kept: Seq<u8>,
    token: u32,
    text: Seq<char>,
    n: int,
)
    requires
        words.words.contains_key(token),
        0 <= n <= encode_utf8(text).len(),
        kept + read_bytes(words.words[token]) == encode_utf8(text).take(n),
    ensures
        n == encode_utf8(text).len() ==> decoded(words, kept, token) == (text, Seq::<u8>::empty()),
        !valid_utf8(encode_utf8(text).take(n)) ==> decoded(words, kept, token).0.len() == 0
            && decoded(words, kept, token).1 == kept + read_bytes(words.words[token]),
{
    let bytes = encode_utf8(text);
    encode_utf8_valid_utf8(text);
    encode_utf8_decode_utf8(text);
    if n == bytes.len() {
        assert(bytes.take(n) =~= bytes);
    }
    law_prefix_is_text_or_cut(bytes, n);
}

} // verus!
