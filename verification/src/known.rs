//! Which vocabularies know every text, so that each text comes back from its tokens.
use vstd::prelude::*;
use vstd::utf8::{encode_scalar, encode_utf8, encode_utf8_decode_utf8, has_width_1_encoding};

use crate::alphabet::{lemma_letter_code, letter, written};
use crate::bpe::{is_best, joined, key16, letters, merged, rank_at};
use crate::json::{member_of, whole_u32, Json};
use crate::roundtrip::{
    is_consistent, knows_all, knows_chunk, knows_chunks, knows_text, law_text_comes_back, streamed,
};
use crate::tokenizer::{chunks_from, encoded, parts_of, stretch, Chunk};
use crate::vocabulary::{
    array_of, lemma_special_stands, no_words, object_of, place_of, special_from,
    specials_not_empty, vocabulary_of, with_added, with_merges, with_words, Words,
};

verus! {

// ---- What a vocabulary is made of ----

/// The added tokens.
pub open spec fn added_of(j: Json) -> Seq<Json> {
    array_of(member_of(j, "added_tokens"@))
}

/// The words.
pub open spec fn listed_of(j: Json) -> Seq<(Seq<char>, Json)> {
    object_of(member_of(member_of(j, "model"@), "vocab"@))
}

/// The merges.
pub open spec fn merges_of(j: Json) -> Seq<Json> {
    array_of(member_of(member_of(j, "model"@), "merges"@))
}

/// Added token `i` gives this word this number.
pub open spec fn adds(j: Json, i: int, word: Seq<char>, id: u32) -> bool {
    &&& 0 <= i < added_of(j).len()
    &&& member_of(added_of(j)[i], "content"@) == Json::Text(word)
    &&& member_of(added_of(j)[i], "id"@) matches Json::Unsigned(n) && id == n as u32
}

/// Word `i` is this one, with this number.
pub open spec fn lists(j: Json, i: int, word: Seq<char>, id: u32) -> bool {
    &&& 0 <= i < listed_of(j).len()
    &&& listed_of(j)[i].0 == word
    &&& whole_u32(listed_of(j)[i].1) == Some(id)
}

/// Some added token or some word gives this word this number.
pub open spec fn names(j: Json, word: Seq<char>, id: u32) -> bool {
    (exists|i: int| adds(j, i, word, id)) || (exists|i: int| lists(j, i, word, id))
}

/// No number is given to two words.
pub open spec fn ids_differ(j: Json) -> bool {
    forall|v: Seq<char>, w: Seq<char>, id: u32| #[trigger]
        names(j, v, id) && #[trigger] names(j, w, id) ==> v == w
}

/// Merge `i` joins these two parts.
pub open spec fn is_merge(items: Seq<Json>, i: int, left: Seq<char>, right: Seq<char>) -> bool {
    &&& 0 <= i < items.len()
    &&& items[i] matches Json::Text(text) && text.index_of_first(' ') matches Some(p) && left
        == text.take(p) && right == text.skip(p + 1)
}

/// A part of a merge is short enough for its key, and the zeros that fill up the key do not belong
/// to it.
pub open spec fn has_own_key(part: Seq<char>) -> bool {
    &&& encode_utf8(part).len() < 16
    &&& part.len() > 0 ==> part.last() != '\0'
}

/// The vocabulary knows what comes out of each merge, and the parts of each have keys of their own.
pub open spec fn knows_merges(words: Words, items: Seq<Json>) -> bool {
    forall|i: int, left: Seq<char>, right: Seq<char>| #[trigger]
        is_merge(items, i, left, right) ==> {
            &&& words.tokens.contains_key(left + right)
            &&& has_own_key(left)
            &&& has_own_key(right)
        }
}

/// The vocabulary knows the character of each byte.
pub open spec fn knows_letters(words: Words) -> bool {
    forall|b: u8| words.tokens.contains_key(seq![#[trigger] letter(b)])
}

// ---- The numbers ----

/// Whatever the vocabulary holds was named.
spec fn is_sound(j: Json, w: Words) -> bool {
    &&& forall|id: u32| #[trigger] w.words.contains_key(id) ==> names(j, w.words[id], id)
    &&& forall|word: Seq<char>| #[trigger]
        w.tokens.contains_key(word) ==> {
            &&& names(j, word, w.tokens[word])
            &&& w.words.contains_key(w.tokens[word])
        }
    &&& forall|k: int|
        0 <= k < w.specials.len() ==> {
            &&& names(j, (#[trigger] w.specials[k]).0, w.specials[k].1)
            &&& w.words.contains_key(w.specials[k].1)
        }
}

proof fn lemma_place_of(specials: Seq<(Seq<char>, u32)>, word: Seq<char>, k: int)
    requires
        0 <= k,
    ensures
        place_of(specials, word, k) matches Some(i) ==> k <= i < specials.len(),
    decreases specials.len() - k,
{
    if k < specials.len() && specials[k].0 != word {
        lemma_place_of(specials, word, k + 1);
    }
}

proof fn lemma_added_sound(j: Json, n: int)
    requires
        0 <= n <= added_of(j).len(),
        with_added(no_words(), added_of(j), n) is Ok,
    ensures
        is_sound(j, with_added(no_words(), added_of(j), n)->Ok_0),
        with_added(no_words(), added_of(j), n)->Ok_0.ranks == no_words().ranks,
    decreases n,
{
    if n > 0 {
        lemma_added_sound(j, n - 1);
        let v = with_added(no_words(), added_of(j), n - 1)->Ok_0;
        let w = with_added(no_words(), added_of(j), n)->Ok_0;
        let item = added_of(j)[n - 1];
        let word = member_of(item, "content"@)->Text_0;
        let id = member_of(item, "id"@)->Unsigned_0 as u32;
        assert(adds(j, n - 1, word, id));
        assert(names(j, word, id));
        lemma_place_of(v.specials, word, 0);
        assert forall|k: int| 0 <= k < w.specials.len() implies names(
            j,
            (#[trigger] w.specials[k]).0,
            w.specials[k].1,
        ) && w.words.contains_key(w.specials[k].1) by {
            if w.specials[k] != (word, id) {
                assert(w.specials[k] == v.specials[k]);
            }
        }
    }
}

proof fn lemma_words_sound(j: Json, base: Words, n: int)
    requires
        is_sound(j, base),
        0 <= n <= listed_of(j).len(),
        with_words(base, listed_of(j), n) is Ok,
    ensures
        is_sound(j, with_words(base, listed_of(j), n)->Ok_0),
        with_words(base, listed_of(j), n)->Ok_0.ranks == base.ranks,
    decreases n,
{
    if n > 0 {
        lemma_words_sound(j, base, n - 1);
        let word = listed_of(j)[n - 1].0;
        let id = whole_u32(listed_of(j)[n - 1].1)->0;
        assert(lists(j, n - 1, word, id));
        assert(names(j, word, id));
    }
}

/// The key of each pair that has a rank is that of some merge.
spec fn come_from_merges(ranks: Map<(Seq<u8>, Seq<u8>), usize>, items: Seq<Json>) -> bool {
    forall|key: (Seq<u8>, Seq<u8>)| #[trigger] ranks.contains_key(key) ==> has_merge(items, key)
}

spec fn has_merge(items: Seq<Json>, key: (Seq<u8>, Seq<u8>)) -> bool {
    exists|i: int, left: Seq<char>, right: Seq<char>| #[trigger]
        is_merge(items, i, left, right) && key == (
            key16(encode_utf8(left)),
            key16(encode_utf8(right)),
        )
}

proof fn lemma_merges(base: Words, items: Seq<Json>, n: int)
    requires
        base.ranks == no_words().ranks,
        0 <= n <= items.len(),
        with_merges(base, items, n) is Ok,
    ensures
        ({
            let w = with_merges(base, items, n)->Ok_0;
            &&& come_from_merges(w.ranks, items)
            &&& w.words == base.words
            &&& w.tokens == base.tokens
            &&& w.specials == base.specials
        }),
    decreases n,
{
    if n > 0 {
        lemma_merges(base, items, n - 1);
        let text = items[n - 1]->Text_0;
        match text.index_of_first(' ') {
            Some(p) => {
                assert(is_merge(items, n - 1, text.take(p), text.skip(p + 1)));
            },
            None => {},
        }
    }
}

proof fn lemma_vocabulary(j: Json, words: Words)
    requires
        vocabulary_of(j) == Ok::<Words, Seq<char>>(words),
    ensures
        is_sound(j, words),
        come_from_merges(words.ranks, merges_of(j)),
{
    let added = added_of(j);
    lemma_added_sound(j, added.len() as int);
    let v = with_added(no_words(), added, added.len() as int)->Ok_0;
    let base = Words {
        found: member_of(member_of(j, "model"@), "vocab"@) is Object,
        ..v
    };
    assert(is_sound(j, base));
    lemma_words_sound(j, base, listed_of(j).len() as int);
    let w = with_words(base, listed_of(j), listed_of(j).len() as int)->Ok_0;
    lemma_merges(w, merges_of(j), merges_of(j).len() as int);
}

/// Where no number is given to two words, the word of each word's token is that word.
pub proof fn law_different_ids_are_consistent(j: Json, words: Words)
    requires
        vocabulary_of(j) == Ok::<Words, Seq<char>>(words),
        ids_differ(j),
    ensures
        is_consistent(words),
{
    lemma_vocabulary(j, words);
    assert forall|word: Seq<char>| #[trigger] words.tokens.contains_key(word) implies {
        &&& words.words.contains_key(words.tokens[word])
        &&& words.words[words.tokens[word]] == word
    } by {
        let id = words.tokens[word];
        assert(names(j, word, id));
        assert(names(j, words.words[id], id));
    }
    assert forall|k: int| 0 <= k < words.specials.len() implies {
        &&& words.words.contains_key((#[trigger] words.specials[k]).1)
        &&& words.words[words.specials[k].1] == words.specials[k].0
    } by {
        let id = words.specials[k].1;
        assert(names(j, words.specials[k].0, id));
        assert(names(j, words.words[id], id));
    }
}

// ---- The keys ----

/// No character is zero.
pub open spec fn has_no_zero(part: Seq<char>) -> bool {
    forall|i: int| 0 <= i < part.len() ==> #[trigger] part[i] != '\0'
}

proof fn lemma_scalar_bytes(code: u32)
    requires
        code != 0,
    ensures
        encode_scalar(code).len() > 0,
        forall|i: int| 0 <= i < encode_scalar(code).len() ==> #[trigger] encode_scalar(code)[i] != 0,
{
    if has_width_1_encoding(code) {
        assert((code & 0x7f) as u8 != 0) by (bit_vector)
            requires
                0 < code <= 0x7f,
        ;
    } else {
        assert(forall|x: u8| #[trigger] (0x80u8 | x) != 0) by (bit_vector);
        assert(forall|x: u8| #[trigger] (0xc0u8 | x) != 0) by (bit_vector);
        assert(forall|x: u8| #[trigger] (0xe0u8 | x) != 0) by (bit_vector);
        assert(forall|x: u8| #[trigger] (0xf0u8 | x) != 0) by (bit_vector);
    }
}

proof fn lemma_char_bytes(c: char)
    requires
        c != '\0',
    ensures
        encode_scalar(c as u32).len() > 0,
        forall|i: int|
            0 <= i < encode_scalar(c as u32).len() ==> #[trigger] encode_scalar(c as u32)[i] != 0,
{
    lemma_scalar_bytes(c as u32);
}

proof fn lemma_bytes_of_letters(part: Seq<char>)
    requires
        has_no_zero(part),
    ensures
        forall|i: int| 0 <= i < encode_utf8(part).len() ==> #[trigger] encode_utf8(part)[i] != 0,
    decreases part.len(),
{
    if part.len() > 0 {
        let rest = part.drop_first();
        assert(has_no_zero(rest)) by {
            assert forall|i: int| 0 <= i < rest.len() implies #[trigger] rest[i] != '\0' by {
                assert(rest[i] == part[i + 1]);
            }
        }
        lemma_bytes_of_letters(rest);
        assert(part[0] != '\0');
        lemma_char_bytes(part[0]);
        let head = encode_scalar(part[0] as u32);
        let tail = encode_utf8(rest);
        assert forall|i: int| 0 <= i < encode_utf8(part).len() implies #[trigger] encode_utf8(
            part,
        )[i] != 0 by {
            if i < head.len() {
                assert((head + tail)[i] == head[i]);
            } else {
                assert((head + tail)[i] == tail[i - head.len()]);
            }
        }
    }
}

proof fn lemma_last_byte(part: Seq<char>)
    requires
        part.len() > 0,
        part.last() != '\0',
    ensures
        encode_utf8(part).len() > 0,
        encode_utf8(part).last() != 0,
    decreases part.len(),
{
    let rest = part.drop_first();
    let head = encode_scalar(part[0] as u32);
    if rest.len() == 0 {
        lemma_char_bytes(part[0]);
        reveal_with_fuel(encode_utf8, 2);
        assert(encode_utf8(part) =~= head);
        assert(head[head.len() - 1] != 0);
    } else {
        lemma_last_byte(rest);
    }
}

/// A part with a key of its own is told by it from all texts without zeros.
proof fn lemma_key_tells(side: Seq<char>, part: Seq<char>)
    requires
        has_own_key(side),
        has_no_zero(part),
        key16(encode_utf8(side)) == key16(encode_utf8(part)),
    ensures
        side == part,
{
    let x = encode_utf8(side);
    let y = encode_utf8(part);
    lemma_bytes_of_letters(part);
    if side.len() > 0 {
        lemma_last_byte(side);
    }
    let n = x.len() as int;
    assert(key16(x)[n] == 0);
    if y.len() > n {
        assert(key16(y)[n] == y[n]);
    }
    if y.len() < n {
        assert(key16(x)[n - 1] == x[n - 1]);
        assert(key16(y)[n - 1] == 0);
    }
    assert forall|i: int| 0 <= i < n implies x[i] == y[i] by {
        assert(key16(x)[i] == x[i]);
        assert(key16(y)[i] == y[i]);
    }
    assert(x =~= y);
    encode_utf8_decode_utf8(side);
    encode_utf8_decode_utf8(part);
}

// ---- The parts ----

/// The vocabulary knows each part, and no part has a zero.
spec fn are_known(words: Words, parts: Seq<Seq<char>>) -> bool {
    forall|i: int|
        0 <= i < parts.len() ==> words.tokens.contains_key(#[trigger] parts[i]) && has_no_zero(
            parts[i],
        )
}

proof fn lemma_merging_knows(words: Words, items: Seq<Json>, parts: Seq<Seq<char>>)
    requires
        come_from_merges(words.ranks, items),
        knows_merges(words, items),
        are_known(words, parts),
    ensures
        are_known(words, merged(words.ranks, parts)),
    decreases parts.len(),
{
    if exists|i: int| is_best(words.ranks, parts, i) {
        let i = choose|i: int| is_best(words.ranks, parts, i);
        let a = parts[i];
        let b = parts[i + 1];
        let next = joined(parts, i);
        assert(rank_at(words.ranks, parts, i) is Some);
        let key = (key16(encode_utf8(a)), key16(encode_utf8(b)));
        assert(words.ranks.contains_key(key));
        assert(has_merge(items, key));
        let (k, left, right) = choose|k: int, left: Seq<char>, right: Seq<char>| #[trigger]
            is_merge(items, k, left, right) && key == (
                key16(encode_utf8(left)),
                key16(encode_utf8(right)),
            );
        assert(has_no_zero(a) && has_no_zero(b));
        lemma_key_tells(left, a);
        lemma_key_tells(right, b);
        assert(has_no_zero(a + b));
        assert forall|m: int| 0 <= m < next.len() implies words.tokens.contains_key(
            #[trigger] next[m],
        ) && has_no_zero(next[m]) by {
            if m < i {
                assert(next[m] == parts[m]);
            } else if m == i {
                assert(next[m] == a + b);
            } else {
                assert(next[m] == parts[m + 1]);
            }
        }
        lemma_merging_knows(words, items, next);
    }
}

/// Each character is written for some byte.
spec fn are_letters(chars: Seq<char>) -> bool {
    forall|i: int| 0 <= i < chars.len() ==> is_letter(#[trigger] chars[i])
}

spec fn is_letter(c: char) -> bool {
    exists|b: u8| c == #[trigger] letter(b)
}

proof fn lemma_stretch_known(words: Words, items: Seq<Json>, chars: Seq<char>, from: int, to: int)
    requires
        come_from_merges(words.ranks, items),
        knows_merges(words, items),
        knows_letters(words),
        are_letters(chars),
        0 <= from <= to <= chars.len(),
        to <= usize::MAX,
    ensures
        knows_chunks(words, chars, stretch(from, to)),
{
    if from < to {
        let part = chars.subrange(from, to);
        let parts = letters(part);
        assert forall|i: int| 0 <= i < parts.len() implies words.tokens.contains_key(
            #[trigger] parts[i],
        ) && has_no_zero(parts[i]) by {
            assert(part[i] == chars[from + i]);
            assert(is_letter(chars[from + i]));
            let b = choose|b: u8| chars[from + i] == #[trigger] letter(b);
            lemma_letter_code(false, b);
            assert(parts[i] =~= seq![letter(b)]);
            assert(letter(b) != '\0');
        }
        lemma_merging_knows(words, items, parts);
        let all = parts_of(words, part);
        assert(knows_all(words, all)) by {
            assert forall|i: int| 0 <= i < all.len() implies words.tokens.contains_key(
                #[trigger] all[i],
            ) by {}
        }
    }
}

proof fn lemma_chunks_known(
    words: Words,
    items: Seq<Json>,
    chars: Seq<char>,
    last: int,
    cursor: int,
)
    requires
        come_from_merges(words.ranks, items),
        knows_merges(words, items),
        knows_letters(words),
        are_letters(chars),
        specials_not_empty(words.specials),
        0 <= last <= cursor <= chars.len(),
        chars.len() <= usize::MAX,
    ensures
        knows_chunks(words, chars, chunks_from(words.specials, chars, last, cursor)),
    decreases chars.len() - cursor,
{
    let specials = words.specials;
    if cursor >= chars.len() {
        lemma_stretch_known(words, items, chars, last, chars.len() as int);
    } else {
        match special_from(specials, chars, cursor, 0) {
            Some(k) => {
                lemma_special_stands(specials, chars, cursor, 0);
                assert(specials[k].0.len() > 0);
                let next = cursor + specials[k].0.len();
                lemma_stretch_known(words, items, chars, last, cursor);
                lemma_chunks_known(words, items, chars, next, next);
                let head = stretch(last, cursor);
                let special = seq![Chunk::SpecialId(specials[k].1)];
                let rest = chunks_from(specials, chars, next, next);
                let all = head + special + rest;
                assert forall|i: int| 0 <= i < all.len() implies knows_chunk(
                    words,
                    chars,
                    #[trigger] all[i],
                ) by {
                    if i < head.len() {
                        assert(all[i] == head[i]);
                    } else if i > head.len() {
                        assert(all[i] == rest[i - head.len() - 1]);
                    }
                }
            },
            None => {
                lemma_chunks_known(words, items, chars, last, cursor + 1);
            },
        }
    }
}

/// A vocabulary that knows the character of each byte and what comes out of each merge knows every
/// part into which any text is merged.
pub proof fn law_vocabulary_knows_every_text(j: Json, words: Words, text: Seq<char>)
    requires
        vocabulary_of(j) == Ok::<Words, Seq<char>>(words),
        specials_not_empty(words.specials),
        knows_letters(words),
        knows_merges(words, merges_of(j)),
        encode_utf8(text).len() <= usize::MAX,
    ensures
        knows_text(words, text),
{
    lemma_vocabulary(j, words);
    let bytes = encode_utf8(text);
    let chars = written(bytes);
    assert(are_letters(chars)) by {
        assert forall|i: int| 0 <= i < chars.len() implies is_letter(#[trigger] chars[i]) by {
            assert(chars[i] == letter(bytes[i]));
        }
    }
    lemma_chunks_known(words, merges_of(j), chars, 0, 0);
}

/// When the tokens of a text are decoded one by one, the text comes back and no byte is kept, with
/// every vocabulary that gives no number to two words and knows the character of each byte and
/// what comes out of each merge, where the byte `0xae` does not occur in the text.
pub proof fn law_every_text_comes_back(j: Json, words: Words, text: Seq<char>)
    requires
        vocabulary_of(j) == Ok::<Words, Seq<char>>(words),
        ids_differ(j),
        specials_not_empty(words.specials),
        knows_letters(words),
        knows_merges(words, merges_of(j)),
        encode_utf8(text).len() <= usize::MAX,
        !encode_utf8(text).contains(0xae),
    ensures
        streamed(words, Seq::empty(), encoded(words, text)) == (text, Seq::<u8>::empty()),
{
    law_different_ids_are_consistent(j, words);
    law_vocabulary_knows_every_text(j, words, text);
    law_text_comes_back(words, text);
}

} // verus!
