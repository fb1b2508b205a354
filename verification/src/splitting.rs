//! How a text is encoded in which a special word stands: what is before the word and what is
//! behind it are encoded as if they stood alone.
use vstd::prelude::*;
use vstd::utf8::{encode_scalar, encode_utf8, has_width_1_encoding, leading_byte_width_1};

use crate::alphabet::{letter, stands, written};
use crate::bpe::{letters, merged, tokens_of};
use crate::roundtrip::{lemma_all_tokens_concat, lemma_encode_concat};
use crate::tokenizer::{all_tokens, chunk_tokens, chunks_from, encoded, stretch, Chunk};
use crate::vocabulary::{lemma_special_stands, special_from, specials_not_empty, stands_at, Words};

verus! {

/// Each character is one that can be seen and has one byte.
pub open spec fn is_plain(word: Seq<char>) -> bool {
    forall|i: int| 0 <= i < word.len() ==> '!' <= #[trigger] word[i] <= '~'
}

/// No special word stands in `chars` before place `n`.
pub open spec fn none_before(specials: Seq<(Seq<char>, u32)>, chars: Seq<char>, n: int) -> bool {
    forall|i: int, j: int|
        0 <= i < n && 0 <= j < specials.len() ==> !#[trigger] stands_at(chars, i, specials[j].0)
}

/// No special word but `k` stands in `chars` at place `n`.
pub open spec fn none_other_at(
    specials: Seq<(Seq<char>, u32)>,
    chars: Seq<char>,
    n: int,
    k: int,
) -> bool {
    forall|j: int|
        0 <= j < specials.len() && j != k ==> !stands_at(chars, n, #[trigger] specials[j].0)
}

proof fn lemma_plain_stands_for_itself(word: Seq<char>)
    requires
        is_plain(word),
    ensures
        written(encode_utf8(word)) == word,
    decreases word.len(),
{
    if word.len() > 0 {
        let rest = word.drop_first();
        assert(is_plain(rest)) by {
            assert forall|i: int| 0 <= i < rest.len() implies '!' <= #[trigger] rest[i] <= '~' by {
                assert(rest[i] == word[i + 1]);
            }
        }
        lemma_plain_stands_for_itself(rest);
        let c = word[0];
        let code = c as u32;
        assert('!' <= word[0] <= '~');
        assert(has_width_1_encoding(code));
        let byte = leading_byte_width_1(code);
        assert(byte == code) by {
            assert((code & 0x7f) as u8 == code) by (bit_vector)
                requires
                    code <= 0x7f,
            ;
        }
        assert(encode_scalar(code) =~= seq![byte]);
        assert(stands(false, byte as int));
        assert(letter(byte) == c);
        let bytes = encode_utf8(word);
        assert(bytes =~= seq![byte] + encode_utf8(rest));
        assert(written(bytes) =~= seq![c] + written(encode_utf8(rest)));
        assert(word =~= seq![c] + rest);
    } else {
        assert(written(encode_utf8(word)) =~= word);
    }
}

proof fn lemma_written_concat(a: Seq<u8>, b: Seq<u8>)
    ensures
        written(a + b) == written(a) + written(b),
{
    assert(written(a + b) =~= written(a) + written(b));
}

proof fn lemma_no_special(
    specials: Seq<(Seq<char>, u32)>,
    chars: Seq<char>,
    cursor: int,
    k: int,
)
    requires
        0 <= k,
        forall|j: int|
            k <= j < specials.len() ==> !stands_at(chars, cursor, #[trigger] specials[j].0),
    ensures
        special_from(specials, chars, cursor, k) is None,
    decreases specials.len() - k,
{
    if k < specials.len() {
        assert(!stands_at(chars, cursor, specials[k].0));
        lemma_no_special(specials, chars, cursor, k + 1);
    }
}

proof fn lemma_only_special(
    specials: Seq<(Seq<char>, u32)>,
    chars: Seq<char>,
    cursor: int,
    k: int,
    from: int,
)
    requires
        0 <= from <= k < specials.len(),
        stands_at(chars, cursor, specials[k].0),
        none_other_at(specials, chars, cursor, k),
    ensures
        special_from(specials, chars, cursor, from) == Some(k),
    decreases k - from,
{
    if from < k {
        assert(!stands_at(chars, cursor, specials[from].0));
        lemma_only_special(specials, chars, cursor, k, from + 1);
    }
}

/// As long as no special word stands anywhere, the cursor moves on.
proof fn lemma_cursor_moves(
    specials: Seq<(Seq<char>, u32)>,
    chars: Seq<char>,
    cursor: int,
    n: int,
)
    requires
        specials_not_empty(specials),
        0 <= cursor <= n <= chars.len(),
        none_before(specials, chars, n),
    ensures
        chunks_from(specials, chars, 0, cursor) == chunks_from(specials, chars, 0, n),
    decreases n - cursor,
{
    if cursor < n {
        assert forall|j: int| 0 <= j < specials.len() implies !stands_at(
            chars,
            cursor,
            #[trigger] specials[j].0,
        ) by {
            assert(!stands_at(chars, cursor, specials[j].0));
        }
        lemma_no_special(specials, chars, cursor, 0);
        lemma_cursor_moves(specials, chars, cursor + 1, n);
    }
}

proof fn lemma_special_behind(
    specials: Seq<(Seq<char>, u32)>,
    head: Seq<char>,
    tail: Seq<char>,
    cursor: int,
    k: int,
)
    requires
        0 <= cursor <= tail.len(),
        0 <= k,
    ensures
        special_from(specials, head + tail, head.len() + cursor, k) == special_from(
            specials,
            tail,
            cursor,
            k,
        ),
    decreases specials.len() - k,
{
    if k < specials.len() {
        let word = specials[k].0;
        let all = head + tail;
        let at = head.len() + cursor;
        if cursor + word.len() <= tail.len() {
            assert(all.subrange(at, at + word.len()) =~= tail.subrange(
                cursor,
                cursor + word.len(),
            ));
        }
        lemma_special_behind(specials, head, tail, cursor, k + 1);
    }
}

proof fn lemma_stretch_behind(words: Words, head: Seq<char>, tail: Seq<char>, last: int, to: int)
    requires
        0 <= last <= to <= tail.len(),
        head.len() + tail.len() <= usize::MAX,
    ensures
        all_tokens(words, head + tail, stretch(head.len() + last, head.len() + to)) == all_tokens(
            words,
            tail,
            stretch(last, to),
        ),
{
    if last < to {
        let n = head.len();
        let a = stretch(n + last, n + to);
        let b = stretch(last, to);
        assert((head + tail).subrange(n + last, n + to) =~= tail.subrange(last, to));
        assert(chunk_tokens(words, head + tail, a[0]) == chunk_tokens(words, tail, b[0]));
        assert(a.drop_last() =~= Seq::<Chunk>::empty());
        assert(b.drop_last() =~= Seq::<Chunk>::empty());
        reveal_with_fuel(all_tokens, 2);
    }
}

/// Behind other characters a text has the tokens that it has alone.
proof fn lemma_tokens_behind(
    words: Words,
    head: Seq<char>,
    tail: Seq<char>,
    last: int,
    cursor: int,
)
    requires
        specials_not_empty(words.specials),
        0 <= last <= cursor <= tail.len(),
        head.len() + tail.len() <= usize::MAX,
    ensures
        all_tokens(
            words,
            head + tail,
            chunks_from(words.specials, head + tail, head.len() + last, head.len() + cursor),
        ) == all_tokens(words, tail, chunks_from(words.specials, tail, last, cursor)),
    decreases tail.len() - cursor,
{
    let specials = words.specials;
    let all = head + tail;
    let n = head.len();
    if cursor >= tail.len() {
        lemma_stretch_behind(words, head, tail, last, tail.len() as int);
    } else {
        lemma_special_behind(specials, head, tail, cursor, 0);
        match special_from(specials, tail, cursor, 0) {
            Some(k) => {
                lemma_special_stands(specials, tail, cursor, 0);
                let id = seq![Chunk::SpecialId(specials[k].1)];
                let next = cursor + specials[k].0.len();
                assert(specials[k].0.len() > 0);
                lemma_stretch_behind(words, head, tail, last, cursor);
                lemma_tokens_behind(words, head, tail, next, next);
                let a = stretch(n + last, n + cursor);
                let b = stretch(last, cursor);
                let c = chunks_from(specials, all, n + next, n + next);
                let d = chunks_from(specials, tail, next, next);
                assert(n + cursor + specials[k].0.len() == n + next);
                lemma_all_tokens_concat(words, all, a, id);
                lemma_all_tokens_concat(words, all, a + id, c);
                lemma_all_tokens_concat(words, tail, b, id);
                lemma_all_tokens_concat(words, tail, b + id, d);
                lemma_special_tokens(words, all, specials[k].1);
                lemma_special_tokens(words, tail, specials[k].1);
            },
            None => {
                lemma_tokens_behind(words, head, tail, last, cursor + 1);
            },
        }
    }
}

proof fn lemma_special_tokens(words: Words, chars: Seq<char>, id: u32)
    ensures
        all_tokens(words, chars, seq![Chunk::SpecialId(id)]) == seq![id as usize],
{
    let chunks = seq![Chunk::SpecialId(id)];
    assert(chunks.drop_last() =~= Seq::<Chunk>::empty());
    reveal_with_fuel(all_tokens, 2);
    assert(all_tokens(words, chars, chunks) =~= seq![id as usize]);
}

/// Encoding splits at a special word: where, among the characters that are written for the bytes
/// of `a + s + b`, no special word starts before `s` and no other one starts with it, the tokens
/// are those of `a`, that of `s`, and those of `b`.
pub proof fn law_encoding_splits_at_special(
    words: Words,
    a: Seq<char>,
    s: Seq<char>,
    b: Seq<char>,
    k: int,
)
    requires
        specials_not_empty(words.specials),
        0 <= k < words.specials.len(),
        words.specials[k].0 == s,
        is_plain(s),
        none_before(
            words.specials,
            written(encode_utf8(a + s + b)),
            encode_utf8(a).len() as int,
        ),
        none_other_at(
            words.specials,
            written(encode_utf8(a + s + b)),
            encode_utf8(a).len() as int,
            k,
        ),
        encode_utf8(a + s + b).len() <= usize::MAX,
    ensures
        encoded(words, a + s + b) == encoded(words, a) + seq![words.specials[k].1 as usize]
            + encoded(words, b),
{
    let specials = words.specials;
    let before = written(encode_utf8(a));
    let behind = written(encode_utf8(b));
    let chars = written(encode_utf8(a + s + b));
    let n = before.len() as int;
    let m = n + s.len();
    let id = specials[k].1;
    lemma_encode_concat(a + s, b);
    lemma_encode_concat(a, s);
    lemma_written_concat(encode_utf8(a) + encode_utf8(s), encode_utf8(b));
    lemma_written_concat(encode_utf8(a), encode_utf8(s));
    lemma_plain_stands_for_itself(s);
    let head = before + s;
    assert(chars == head + behind);
    assert(s.len() > 0);
    assert(chars.subrange(n, m) =~= s);
    lemma_cursor_moves(specials, chars, 0, n);
    lemma_only_special(specials, chars, n, k, 0);
    let rest = chunks_from(specials, chars, m, m);
    let first = stretch(0, n);
    let special = seq![Chunk::SpecialId(id)];
    assert(chunks_from(specials, chars, 0, n) == first + special + rest);
    lemma_all_tokens_concat(words, chars, first, special);
    lemma_all_tokens_concat(words, chars, first + special, rest);
    lemma_special_tokens(words, chars, id);
    lemma_tokens_behind(words, head, behind, 0, 0);
    assert(none_before(specials, before, n)) by {
        assert forall|i: int, j: int| 0 <= i < n && 0 <= j < specials.len() implies !#[trigger] stands_at(
            before,
            i,
            specials[j].0,
        ) by {
            let word = specials[j].0;
            assert(!stands_at(chars, i, word));
            if i + word.len() <= n {
                assert(chars.subrange(i, i + word.len()) =~= before.subrange(i, i + word.len()));
            }
        }
    }
    lemma_cursor_moves(specials, before, 0, n);
    assert(all_tokens(words, chars, first) == all_tokens(words, before, first)) by {
        if 0 < n {
            assert(chars.subrange(0, n) =~= before.subrange(0, n));
            assert(chunk_tokens(words, chars, first[0]) == chunk_tokens(words, before, first[0]));
            assert(first.drop_last() =~= Seq::<Chunk>::empty());
            reveal_with_fuel(all_tokens, 2);
        }
    }
}

/// A text in which no special word stands is written in the alphabet, taken apart into its
/// characters, and merged; its tokens are those of the parts that remain.
pub proof fn law_plain_text_is_merged(words: Words, text: Seq<char>)
    requires
        specials_not_empty(words.specials),
        text.len() > 0,
        written(encode_utf8(text)).len() <= usize::MAX,
        none_before(
            words.specials,
            written(encode_utf8(text)),
            written(encode_utf8(text)).len() as int,
        ),
    ensures
        encoded(words, text) == tokens_of(
            words.tokens,
            merged(words.ranks, letters(written(encode_utf8(text)))),
        ),
{
    let chars = written(encode_utf8(text));
    let n = chars.len() as int;
    lemma_cursor_moves(words.specials, chars, 0, n);
    let chunks = stretch(0, n);
    if n == 0 {
        assert(encode_utf8(text).len() == 0);
        lemma_encoding_not_empty(text);
    }
    assert(chunks.drop_last() =~= Seq::<Chunk>::empty());
    assert(chars.subrange(0, n) =~= chars);
    reveal_with_fuel(all_tokens, 2);
    assert(encoded(words, text) =~= chunk_tokens(words, chars, chunks[0]));
}

proof fn lemma_encoding_not_empty(text: Seq<char>)
    requires
        text.len() > 0,
    ensures
        encode_utf8(text).len() > 0,
{
    assert(encode_utf8(text) == encode_scalar(text[0] as u32) + encode_utf8(text.drop_first()));
    assert(encode_scalar(text[0] as u32).len() > 0);
}

} // verus!
