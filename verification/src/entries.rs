//! What becomes of each entry of a `tokenizer.json`: a word gets its token, a merge its rank, and
//! an added token is special.
use vstd::prelude::*;
use vstd::utf8::encode_utf8;

use crate::bpe::key16;
use crate::json::{member_of, whole_u32, Json};
use crate::vocabulary::{
    array_of, no_words, object_of, place_of, special_from, stands_at, vocabulary_of, with_added,
    with_merges, with_words, Words,
};

verus! {

proof fn lemma_words(base: Words, members: Seq<(Seq<char>, Json)>, n: int, i: int, id: u32)
    requires
        0 <= i < n <= members.len(),
        with_words(base, members, n) is Ok,
        whole_u32(members[i].1) == Some(id),
    ensures
        (forall|k: int| i < k < n ==> (#[trigger] members[k]).0 != members[i].0) ==> with_words(
            base,
            members,
            n,
        )->Ok_0.tokens.contains_pair(members[i].0, id),
        (forall|k: int| i < k < n ==> whole_u32((#[trigger] members[k]).1) != Some(id))
            ==> with_words(base, members, n)->Ok_0.words.contains_pair(id, members[i].0),
    decreases n,
{
    if i < n - 1 {
        lemma_words(base, members, n - 1, i, id);
        assert(members[n - 1] == members[n - 1]);
    }
}

proof fn lemma_words_keep(base: Words, members: Seq<(Seq<char>, Json)>, n: int)
    requires
        with_words(base, members, n) is Ok,
    ensures
        with_words(base, members, n)->Ok_0.specials == base.specials,
        with_words(base, members, n)->Ok_0.ranks == base.ranks,
    decreases n,
{
    if n > 0 {
        lemma_words_keep(base, members, n - 1);
    }
}

proof fn lemma_merges_keep(base: Words, items: Seq<Json>, n: int)
    requires
        with_merges(base, items, n) is Ok,
    ensures
        with_merges(base, items, n)->Ok_0.specials == base.specials,
        with_merges(base, items, n)->Ok_0.tokens == base.tokens,
        with_merges(base, items, n)->Ok_0.words == base.words,
        with_merges(base, items, n)->Ok_0.found == base.found,
    decreases n,
{
    if n > 0 {
        lemma_merges_keep(base, items, n - 1);
    }
}

/// A word of the vocabulary gets the number that stands with it as its token, unless the word comes
/// once more behind it; and the token is decoded to the word, unless another word has that number
/// behind it.
pub proof fn law_word_has_its_token(
    j: Json,
    words: Words,
    members: Seq<(Seq<char>, Json)>,
    i: int,
    id: u32,
)
    requires
        vocabulary_of(j) == Ok::<Words, Seq<char>>(words),
        member_of(member_of(j, "model"@), "vocab"@) == Json::Object(members),
        0 <= i < members.len(),
        whole_u32(members[i].1) == Some(id),
    ensures
        (forall|k: int| i < k < members.len() ==> (#[trigger] members[k]).0 != members[i].0)
            ==> words.tokens.contains_pair(members[i].0, id),
        (forall|k: int| i < k < members.len() ==> whole_u32((#[trigger] members[k]).1) != Some(id))
            ==> words.words.contains_pair(id, members[i].0),
        words.found,
{
    let added = array_of(member_of(j, "added_tokens"@));
    let merges = array_of(member_of(member_of(j, "model"@), "merges"@));
    let first = with_added(no_words(), added, added.len() as int)->Ok_0;
    let base = Words { found: true, ..first };
    let n = members.len() as int;
    lemma_words(base, members, n, i, id);
    lemma_found(base, members, n);
    lemma_merges_keep(with_words(base, members, n)->Ok_0, merges, merges.len() as int);
}

proof fn lemma_found(base: Words, members: Seq<(Seq<char>, Json)>, n: int)
    requires
        with_words(base, members, n) is Ok,
    ensures
        with_words(base, members, n)->Ok_0.found == base.found,
    decreases n,
{
    if n > 0 {
        lemma_found(base, members, n - 1);
    }
}

// ---- Merges ----

/// A merge joins these two parts: they stand around the first space of a text.
pub open spec fn joins(item: Json, left: Seq<char>, right: Seq<char>) -> bool {
    item matches Json::Text(text) && text == left + seq![' '] + right && !left.contains(' ')
}

/// The keys of two parts in a table of ranks.
pub open spec fn keys_of(left: Seq<char>, right: Seq<char>) -> (Seq<u8>, Seq<u8>) {
    (key16(encode_utf8(left)), key16(encode_utf8(right)))
}

proof fn lemma_split(text: Seq<char>, left: Seq<char>, right: Seq<char>)
    requires
        text == left + seq![' '] + right,
        !left.contains(' '),
    ensures
        text.index_of_first(' ') == Some(left.len() as int),
        text.take(left.len() as int) == left,
        text.skip((left.len() + 1) as int) == right,
{
    let n = left.len() as int;
    text.index_of_first_ensures(' ');
    assert(text[n] == ' ');
    assert forall|k: int| 0 <= k < n implies text[k] != ' ' by {
        assert(text[k] == left[k]);
    }
    assert(text.take(n) =~= left);
    assert(text.skip(n + 1) =~= right);
}

/// The keys of a merge, if it has a space.
pub open spec fn merge_keys(item: Json) -> Option<(Seq<u8>, Seq<u8>)> {
    match item {
        Json::Text(text) => match text.index_of_first(' ') {
            Some(i) => Some(keys_of(text.take(i), text.skip(i + 1))),
            None => None,
        },
        _ => None,
    }
}

proof fn lemma_merges(
    base: Words,
    items: Seq<Json>,
    n: int,
    i: int,
    left: Seq<char>,
    right: Seq<char>,
)
    requires
        0 <= i < n <= items.len(),
        with_merges(base, items, n) is Ok,
        joins(items[i], left, right),
        forall|k: int|
            i < k < n ==> merge_keys(#[trigger] items[k]) != Some(keys_of(left, right)),
    ensures
        with_merges(base, items, n)->Ok_0.ranks.contains_pair(keys_of(left, right), i as usize),
    decreases n,
{
    if i < n - 1 {
        lemma_merges(base, items, n - 1, i, left, right);
        assert(merge_keys(items[n - 1]) != Some(keys_of(left, right)));
    } else {
        lemma_split(items[i]->Text_0, left, right);
    }
}

/// The rank of a merge is its place among the merges: merge `i`, whose two parts stand around its
/// first space, gives the pair of these parts rank `i`, unless one behind it has the same keys.
pub proof fn law_merge_has_its_rank(
    j: Json,
    words: Words,
    items: Seq<Json>,
    i: int,
    left: Seq<char>,
    right: Seq<char>,
)
    requires
        vocabulary_of(j) == Ok::<Words, Seq<char>>(words),
        member_of(member_of(j, "model"@), "merges"@) == Json::Array(items),
        0 <= i < items.len(),
        i <= usize::MAX,
        joins(items[i], left, right),
        forall|k: int|
            i < k < items.len() ==> merge_keys(#[trigger] items[k]) != Some(keys_of(left, right)),
    ensures
        words.ranks.contains_key(keys_of(left, right)),
        words.ranks[keys_of(left, right)] == i,
{
    let added = array_of(member_of(j, "added_tokens"@));
    let vocab = member_of(member_of(j, "model"@), "vocab"@);
    let members = object_of(vocab);
    let first = with_added(no_words(), added, added.len() as int)->Ok_0;
    let base = Words { found: vocab is Object, ..first };
    let second = with_words(base, members, members.len() as int)->Ok_0;
    lemma_merges(second, items, items.len() as int, i, left, right);
}

// ---- Added tokens ----

/// An added token has this word and this number.
pub open spec fn adds_token(item: Json, word: Seq<char>, id: u64) -> bool {
    &&& member_of(item, "content"@) == Json::Text(word)
    &&& member_of(item, "id"@) == Json::Unsigned(id)
}

/// A word is among the special ones, with this token.
pub open spec fn is_special(specials: Seq<(Seq<char>, u32)>, word: Seq<char>, id: u32) -> bool {
    exists|k: int| 0 <= k < specials.len() && #[trigger] specials[k] == (word, id)
}

proof fn lemma_place(specials: Seq<(Seq<char>, u32)>, word: Seq<char>, k: int)
    requires
        0 <= k,
    ensures
        match place_of(specials, word, k) {
            Some(p) => k <= p < specials.len() && specials[p].0 == word,
            None => true,
        },
    decreases specials.len() - k,
{
    if k < specials.len() && specials[k].0 != word {
        lemma_place(specials, word, k + 1);
    }
}

proof fn lemma_added(base: Words, items: Seq<Json>, n: int, i: int, word: Seq<char>, id: u64)
    requires
        0 <= i < n <= items.len(),
        with_added(base, items, n) is Ok,
        adds_token(items[i], word, id),
        forall|k: int|
            i < k < n ==> member_of(#[trigger] items[k], "content"@) != Json::Text(word),
    ensures
        is_special(with_added(base, items, n)->Ok_0.specials, word, id as u32),
    decreases n,
{
    let v = with_added(base, items, n - 1)->Ok_0;
    let last = member_of(items[n - 1], "content"@)->Text_0;
    let after = with_added(base, items, n)->Ok_0.specials;
    lemma_place(v.specials, last, 0);
    if i < n - 1 {
        lemma_added(base, items, n - 1, i, word, id);
        let k = choose|k: int|
            0 <= k < v.specials.len() && #[trigger] v.specials[k] == (word, id as u32);
        assert(after[k] == (word, id as u32));
    } else {
        match place_of(v.specials, last, 0) {
            Some(p) => {
                assert(after[p] == (word, id as u32));
            },
            None => {
                assert(after[v.specials.len() as int] == (word, id as u32));
            },
        }
    }
}

/// An added token is special, with its word and its number, unless one behind it has the same word.
pub proof fn law_added_token_is_special(
    j: Json,
    words: Words,
    items: Seq<Json>,
    i: int,
    word: Seq<char>,
    id: u64,
)
    requires
        vocabulary_of(j) == Ok::<Words, Seq<char>>(words),
        member_of(j, "added_tokens"@) == Json::Array(items),
        0 <= i < items.len(),
        adds_token(items[i], word, id),
        forall|k: int|
            i < k < items.len() ==> member_of(#[trigger] items[k], "content"@) != Json::Text(word),
    ensures
        is_special(words.specials, word, id as u32),
{
    let vocab = member_of(member_of(j, "model"@), "vocab"@);
    let members = object_of(vocab);
    let merges = array_of(member_of(member_of(j, "model"@), "merges"@));
    let first = with_added(no_words(), items, items.len() as int)->Ok_0;
    lemma_added(no_words(), items, items.len() as int, i, word, id);
    let base = Words { found: vocab is Object, ..first };
    lemma_words_keep(base, members, members.len() as int);
    let second = with_words(base, members, members.len() as int)->Ok_0;
    lemma_merges_keep(second, merges, merges.len() as int);
}

/// Of the special words that stand at one place of a text, the first in the list counts: one is
/// found if and only if it stands there and none in front of it does.
pub proof fn law_first_special_counts(
    specials: Seq<(Seq<char>, u32)>,
    chars: Seq<char>,
    cursor: int,
    k: int,
)
    requires
        0 <= k < specials.len(),
    ensures
        special_from(specials, chars, cursor, 0) == Some(k) <==> {
            let word = specials[k].0;
            &&& cursor + word.len() <= chars.len()
            &&& chars.subrange(cursor, cursor + word.len()) == word
            &&& forall|e: int|
                0 <= e < k ==> !stands_at(chars, cursor, (#[trigger] specials[e]).0)
        },
{
    lemma_first_special(specials, chars, cursor, k, 0);
}

proof fn lemma_first_special(
    specials: Seq<(Seq<char>, u32)>,
    chars: Seq<char>,
    cursor: int,
    k: int,
    from: int,
)
    requires
        0 <= from,
        k < specials.len(),
    ensures
        special_from(specials, chars, cursor, from) == Some(k) <==> from <= k && stands_at(
            chars,
            cursor,
            specials[k].0,
        ) && forall|e: int|
            from <= e < k ==> !stands_at(chars, cursor, (#[trigger] specials[e]).0),
    decreases specials.len() - from,
{
    if from < specials.len() {
        lemma_first_special(specials, chars, cursor, k, from + 1);
        if from < k && stands_at(chars, cursor, specials[from].0) {
            assert(!(forall|e: int|
                from <= e < k ==> !stands_at(chars, cursor, (#[trigger] specials[e]).0)));
        }
    }
}

} // verus!
