//! The vocabulary of a tokenizer, as it stands in a `tokenizer.json`.
use serde_json::Value;
use std::collections::HashMap;
use vstd::hash_map::StringHashMap;
use vstd::prelude::*;
use vstd::utf8::encode_utf8;

use crate::bpe::{key16, RankTable};
use crate::json::{
    as_u32, holds_items, holds_members, items, json_of, member, member_of, members, text_of,
    unsigned, whole_u32, Json,
};
use crate::text::{chars_of, string_of};

verus! {

/// What a vocabulary holds: the special words with their tokens, the token of each word, the rank
/// of each pair of keys, the word of each token, and whether its words were found at all.
pub ghost struct Words {
    pub specials: Seq<(Seq<char>, u32)>,
    pub tokens: Map<Seq<char>, u32>,
    pub ranks: Map<(Seq<u8>, Seq<u8>), usize>,
    pub words: Map<u32, Seq<char>>,
    pub found: bool,
}

/// An empty vocabulary.
pub open spec fn no_words() -> Words {
    Words {
        specials: Seq::empty(),
        tokens: Map::empty(),
        ranks: Map::empty(),
        words: Map::empty(),
        found: false,
    }
}

/// The first place from `k` on at which a word stands.
pub open spec fn place_of(specials: Seq<(Seq<char>, u32)>, word: Seq<char>, k: int) -> Option<int>
    decreases specials.len() - k,
{
    if k < 0 || k >= specials.len() {
        None
    } else if specials[k].0 == word {
        Some(k)
    } else {
        place_of(specials, word, k + 1)
    }
}

/// The special words with one more, which replaces a former one of that name.
pub open spec fn with_special(
    specials: Seq<(Seq<char>, u32)>,
    word: Seq<char>,
    token: u32,
) -> Seq<(Seq<char>, u32)> {
    match place_of(specials, word, 0) {
        Some(k) => specials.update(k, (word, token)),
        None => specials.push((word, token)),
    }
}

/// What is said of an added token without a word.
pub open spec fn no_content() -> Seq<char> {
    "cannot get content"@
}

/// What is said of an added token without a number.
pub open spec fn no_id() -> Seq<char> {
    "cannot get id"@
}

/// What is said of a word without a number.
pub open spec fn no_index() -> Seq<char> {
    "cannot get index"@
}

/// What is said of a merge that is no text.
pub open spec fn no_merge() -> Seq<char> {
    "merge entry not a string"@
}

/// What is said of a text that is no JSON.
pub open spec fn no_vocabulary() -> Seq<char> {
    "cannot convert to str"@
}

/// The items of an array; of anything else, none.
pub open spec fn array_of(j: Json) -> Seq<Json> {
    match j {
        Json::Array(items) => items,
        _ => Seq::empty(),
    }
}

/// The members of an object; of anything else, none.
pub open spec fn object_of(j: Json) -> Seq<(Seq<char>, Json)> {
    match j {
        Json::Object(members) => members,
        _ => Seq::empty(),
    }
}

/// The vocabulary with the first `n` of the added tokens.
pub open spec fn with_added(base: Words, items: Seq<Json>, n: int) -> Result<Words, Seq<char>>
    decreases n,
{
    if n <= 0 {
        Ok(base)
    } else {
        match with_added(base, items, n - 1) {
            Err(e) => Err(e),
            Ok(v) => match member_of(items[n - 1], "content"@) {
                Json::Text(word) => match member_of(items[n - 1], "id"@) {
                    Json::Unsigned(id) => Ok(
                        Words {
                            specials: with_special(v.specials, word, id as u32),
                            words: v.words.insert(id as u32, word),
                            ..v
                        },
                    ),
                    _ => Err(no_id()),
                },
                _ => Err(no_content()),
            },
        }
    }
}

/// The vocabulary with the first `n` of the words.
pub open spec fn with_words(
    base: Words,
    members: Seq<(Seq<char>, Json)>,
    n: int,
) -> Result<Words, Seq<char>>
    decreases n,
{
    if n <= 0 {
        Ok(base)
    } else {
        match with_words(base, members, n - 1) {
            Err(e) => Err(e),
            Ok(v) => match whole_u32(members[n - 1].1) {
                Some(id) => Ok(
                    Words {
                        tokens: v.tokens.insert(members[n - 1].0, id),
                        words: v.words.insert(id, members[n - 1].0),
                        ..v
                    },
                ),
                None => Err(no_index()),
            },
        }
    }
}

/// The ranks with one more merge, `rank`, whose two parts stand around its first space; without a
/// space it is passed over.
pub open spec fn with_merge(
    ranks: Map<(Seq<u8>, Seq<u8>), usize>,
    text: Seq<char>,
    rank: usize,
) -> Map<(Seq<u8>, Seq<u8>), usize> {
    match text.index_of_first(' ') {
        Some(i) => ranks.insert(
            (key16(encode_utf8(text.take(i))), key16(encode_utf8(text.skip(i + 1)))),
            rank,
        ),
        None => ranks,
    }
}

/// The vocabulary with the first `n` of the merges.
pub open spec fn with_merges(base: Words, items: Seq<Json>, n: int) -> Result<Words, Seq<char>>
    decreases n,
{
    if n <= 0 {
        Ok(base)
    } else {
        match with_merges(base, items, n - 1) {
            Err(e) => Err(e),
            Ok(v) => match items[n - 1] {
                Json::Text(text) => Ok(
                    Words { ranks: with_merge(v.ranks, text, (n - 1) as usize), ..v },
                ),
                _ => Err(no_merge()),
            },
        }
    }
}

/// The vocabulary that a JSON value holds, or why it holds none.
pub open spec fn vocabulary_of(j: Json) -> Result<Words, Seq<char>> {
    let added = array_of(member_of(j, "added_tokens"@));
    let vocab = member_of(member_of(j, "model"@), "vocab"@);
    let merges = array_of(member_of(member_of(j, "model"@), "merges"@));
    match with_added(no_words(), added, added.len() as int) {
        Err(e) => Err(e),
        Ok(v) => match with_words(
            Words { found: vocab is Object, ..v },
            object_of(vocab),
            object_of(vocab).len() as int,
        ) {
            Err(e) => Err(e),
            Ok(w) => with_merges(w, merges, merges.len() as int),
        },
    }
}

proof fn lemma_added_error_stays(base: Words, items: Seq<Json>, n: int, m: int)
    requires
        n <= m,
        with_added(base, items, n) is Err,
    ensures
        with_added(base, items, m) == with_added(base, items, n),
    decreases m - n,
{
    if n < m {
        lemma_added_error_stays(base, items, n, m - 1);
    }
}

proof fn lemma_words_error_stays(base: Words, members: Seq<(Seq<char>, Json)>, n: int, m: int)
    requires
        n <= m,
        with_words(base, members, n) is Err,
    ensures
        with_words(base, members, m) == with_words(base, members, n),
    decreases m - n,
{
    if n < m {
        lemma_words_error_stays(base, members, n, m - 1);
    }
}

proof fn lemma_merges_error_stays(base: Words, items: Seq<Json>, n: int, m: int)
    requires
        n <= m,
        with_merges(base, items, n) is Err,
    ensures
        with_merges(base, items, m) == with_merges(base, items, n),
    decreases m - n,
{
    if n < m {
        lemma_merges_error_stays(base, items, n, m - 1);
    }
}

/// No special word is empty.
pub open spec fn specials_not_empty(specials: Seq<(Seq<char>, u32)>) -> bool {
    forall|k: int| 0 <= k < specials.len() ==> (#[trigger] specials[k]).0.len() > 0
}

/// The first special word from `k` on that stands in `chars` at `cursor`.
pub open spec fn special_from(
    specials: Seq<(Seq<char>, u32)>,
    chars: Seq<char>,
    cursor: int,
    k: int,
) -> Option<int>
    decreases specials.len() - k,
{
    if k < 0 || k >= specials.len() {
        None
    } else if stands_at(chars, cursor, specials[k].0) {
        Some(k)
    } else {
        special_from(specials, chars, cursor, k + 1)
    }
}

/// `word` stands in `chars` at `cursor`.
pub open spec fn stands_at(chars: Seq<char>, cursor: int, word: Seq<char>) -> bool {
    &&& cursor + word.len() <= chars.len()
    &&& chars.subrange(cursor, cursor + word.len()) == word
}

/// A special word that is found stands where it was looked for.
pub proof fn lemma_special_stands(
    specials: Seq<(Seq<char>, u32)>,
    chars: Seq<char>,
    cursor: int,
    k: int,
)
    requires
        0 <= k,
    ensures
        match special_from(specials, chars, cursor, k) {
            Some(i) => k <= i < specials.len() && stands_at(chars, cursor, specials[i].0),
            None => true,
        },
    decreases specials.len() - k,
{
    if k < specials.len() && !stands_at(chars, cursor, specials[k].0) {
        lemma_special_stands(specials, chars, cursor, k + 1);
    }
}

fn word_stands_at(chars: &Vec<char>, cursor: usize, word: &Vec<char>) -> (r: bool)
    requires
        cursor <= chars@.len(),
    ensures
        r == stands_at(chars@, cursor as int, word@),
{
    if word.len() > chars.len() - cursor {
        return false;
    }
    let mut i: usize = 0;
    while i < word.len()
        invariant
            i <= word@.len(),
            cursor + word.len() <= chars.len(),
            forall|j: int| 0 <= j < i ==> chars@[cursor + j] == word@[j],
        decreases word@.len() - i,
    {
        if chars[cursor + i] != word[i] {
            assert(chars@.subrange(cursor as int, cursor + word@.len())[i as int] != word@[i as int]);
            return false;
        }
        i += 1;
    }
    assert(chars@.subrange(cursor as int, cursor + word@.len()) =~= word@);
    true
}

/// A vocabulary.
pub struct Vocabulary {
    special_map: Vec<(Vec<char>, u32)>,
    encode_map: StringHashMap<u32>,
    rank_map: RankTable,
    decode_map: HashMap<u32, String>,
    found: bool,
}

spec fn special_words(specials: Seq<(Vec<char>, u32)>) -> Seq<(Seq<char>, u32)> {
    Seq::new(specials.len(), |i: int| (specials[i].0@, specials[i].1))
}

spec fn word_texts(words: Map<u32, String>) -> Map<u32, Seq<char>> {
    words.map_values(|word: String| word@)
}

impl View for Vocabulary {
    type V = Words;

    closed spec fn view(&self) -> Words {
        Words {
            specials: special_words(self.special_map@),
            tokens: self.encode_map@,
            ranks: self.rank_map@,
            words: word_texts(self.decode_map@),
            found: self.found,
        }
    }
}

fn put_special(specials: &mut Vec<(Vec<char>, u32)>, word: Vec<char>, token: u32)
    ensures
        special_words(final(specials)@) == with_special(
            special_words(old(specials)@),
            word@,
            token,
        ),
{
    let ghost before = special_words(specials@);
    let n = specials.len();
    let mut k: usize = 0;
    while k < n
        invariant
            k <= n,
            n == specials@.len(),
            special_words(specials@) == before,
            specials@ == old(specials)@,
            place_of(before, word@, 0) == place_of(before, word@, k as int),
        decreases n - k,
    {
        if same_chars(&specials[k].0, &word) {
            specials[k] = (word, token);
            assert(special_words(specials@) =~= before.update(k as int, (word@, token)));
            return;
        }
        k += 1;
    }
    specials.push((word, token));
    assert(special_words(specials@) =~= before.push((word@, token)));
}

fn same_chars(a: &Vec<char>, b: &Vec<char>) -> (r: bool)
    ensures
        r == (a@ == b@),
{
    if a.len() != b.len() {
        return false;
    }
    let same = word_stands_at(a, 0, b);
    assert(a@.subrange(0, a@.len() as int) =~= a@);
    same
}

fn split_at_space(text: &str) -> (r: Option<(String, String)>)
    ensures
        match r {
            Some((left, right)) => text@.index_of_first(' ') is Some && left@ == text@.take(
                text@.index_of_first(' ')->0,
            ) && right@ == text@.skip(text@.index_of_first(' ')->0 + 1),
            None => text@.index_of_first(' ') is None,
        },
{
    let chars = chars_of(text);
    let n = chars.len();
    proof {
        text@.index_of_first_ensures(' ');
    }
    let mut i: usize = 0;
    while i < n
        invariant
            i <= n,
            n == chars@.len(),
            chars@ == text@,
            forall|j: int| 0 <= j < i ==> text@[j] != ' ',
        decreases n - i,
    {
        if chars[i] == ' ' {
            let left = string_of(vstd::slice::slice_subrange(chars.as_slice(), 0, i));
            let right = string_of(vstd::slice::slice_subrange(chars.as_slice(), i + 1, n));
            proof {
                text@.index_of_first_ensures(' ');
                assert(text@[i as int] == ' ');
                assert(left@ =~= text@.take(i as int));
                assert(right@ =~= text@.skip(i + 1));
            }
            return Some((left, right));
        }
        i += 1;
    }
    None
}

impl Vocabulary {
    fn empty() -> (r: Vocabulary)
        ensures
            r@ == no_words(),
    {
        let r = Vocabulary {
            special_map: Vec::new(),
            encode_map: StringHashMap::new(),
            rank_map: RankTable::new(),
            decode_map: HashMap::new(),
            found: false,
        };
        assert(r@.specials =~= no_words().specials);
        assert(r@.words =~= no_words().words);
        r
    }

    fn put_word(&mut self, token: u32, word: String)
        ensures
            final(self)@ == (Words { words: old(self)@.words.insert(token, word@), ..old(self)@ }),
    {
        broadcast use vstd::std_specs::hash::group_hash_axioms;

        self.decode_map.insert(token, word);
        assert(self@.words =~= old(self)@.words.insert(token, word@));
    }

    fn add_tokens(&mut self, values: &Vec<Value>, Ghost(all): Ghost<Seq<Json>>) -> (r: Result<
        (),
        String,
    >)
        requires
            holds_items(values@, all),
        ensures
            match r {
                Ok(_) => with_added(old(self)@, all, all.len() as int) == Ok::<Words, Seq<char>>(
                    final(self)@,
                ),
                Err(e) => with_added(old(self)@, all, all.len() as int) == Err::<Words, Seq<char>>(
                    e@,
                ),
            },
    {
        let ghost base = self@;
        let mut i: usize = 0;
        while i < values.len()
            invariant
                i <= values@.len(),
                holds_items(values@, all),
                base == old(self)@,
                with_added(base, all, i as int) == Ok::<Words, Seq<char>>(self@),
            decreases values@.len() - i,
        {
            let ghost n = i + 1;
            let ghost before = self@;
            assert(json_of(values@[n - 1]) == all[n - 1]);
            let word = match text_of(member(&values[i], "content")) {
                Some(word) => word,
                None => {
                    proof {
                        lemma_added_error_stays(base, all, n, all.len() as int);
                    }
                    return Err("cannot get content".to_owned());
                },
            };
            let id = match unsigned(member(&values[i], "id")) {
                Some(id) => id as u32,
                None => {
                    proof {
                        lemma_added_error_stays(base, all, n, all.len() as int);
                    }
                    return Err("cannot get id".to_owned());
                },
            };
            put_special(&mut self.special_map, chars_of(word), id);
            self.put_word(id, word.to_owned());
            proof {
                assert(self@.specials == with_special(before.specials, word@, id));
                assert(with_added(base, all, n) == Ok::<Words, Seq<char>>(self@));
            }
            i += 1;
        }
        Ok(())
    }

    fn add_words(
        &mut self,
        entries: &Vec<(&String, &Value)>,
        Ghost(all): Ghost<Seq<(Seq<char>, Json)>>,
    ) -> (r: Result<(), String>)
        requires
            holds_members(entries@, all),
        ensures
            match r {
                Ok(_) => with_words(old(self)@, all, all.len() as int) == Ok::<Words, Seq<char>>(
                    final(self)@,
                ),
                Err(e) => with_words(old(self)@, all, all.len() as int) == Err::<Words, Seq<char>>(
                    e@,
                ),
            },
    {
        let ghost base = self@;
        let mut i: usize = 0;
        while i < entries.len()
            invariant
                i <= entries@.len(),
                holds_members(entries@, all),
                base == old(self)@,
                with_words(base, all, i as int) == Ok::<Words, Seq<char>>(self@),
            decreases entries@.len() - i,
        {
            let ghost n = i + 1;
            let ghost before = self@;
            let word = entries[i].0;
            assert(entries@[n - 1].0@ == all[n - 1].0);
            let id = match as_u32(entries[i].1) {
                Some(id) => id,
                None => {
                    proof {
                        lemma_words_error_stays(base, all, n, all.len() as int);
                    }
                    return Err("cannot get index".to_owned());
                },
            };
            self.encode_map.insert(word.clone(), id);
            self.put_word(id, word.clone());
            proof {
                assert(with_words(base, all, n) == Ok::<Words, Seq<char>>(self@));
            }
            i += 1;
        }
        Ok(())
    }

    fn add_merges(&mut self, values: &Vec<Value>, Ghost(all): Ghost<Seq<Json>>) -> (r: Result<
        (),
        String,
    >)
        requires
            holds_items(values@, all),
        ensures
            match r {
                Ok(_) => with_merges(old(self)@, all, all.len() as int) == Ok::<Words, Seq<char>>(
                    final(self)@,
                ),
                Err(e) => with_merges(old(self)@, all, all.len() as int) == Err::<Words, Seq<char>>(
                    e@,
                ),
            },
    {
        let ghost base = self@;
        let mut i: usize = 0;
        while i < values.len()
            invariant
                i <= values@.len(),
                holds_items(values@, all),
                base == old(self)@,
                with_merges(base, all, i as int) == Ok::<Words, Seq<char>>(self@),
            decreases values@.len() - i,
        {
            let ghost n = i + 1;
            assert(json_of(values@[n - 1]) == all[n - 1]);
            let text = match text_of(&values[i]) {
                Some(text) => text,
                None => {
                    proof {
                        lemma_merges_error_stays(base, all, n, all.len() as int);
                    }
                    return Err("merge entry not a string".to_owned());
                },
            };
            match split_at_space(text) {
                Some((left, right)) => {
                    self.rank_map.insert(left.as_str().as_bytes(), right.as_str().as_bytes(), i);
                },
                None => {},
            }
            proof {
                assert(with_merges(base, all, n) == Ok::<Words, Seq<char>>(self@));
            }
            i += 1;
        }
        Ok(())
    }

    /// Reads a vocabulary from a JSON value.
    pub fn from_json(vocab_value: &Value) -> (r: Result<Vocabulary, String>)
        ensures
            match r {
                Ok(v) => vocabulary_of(json_of(*vocab_value)) == Ok::<Words, Seq<char>>(v@),
                Err(e) => vocabulary_of(json_of(*vocab_value)) == Err::<Words, Seq<char>>(e@),
            },
    {
        let mut r = Vocabulary::empty();
        let added = member(vocab_value, "added_tokens");
        let ghost all_added = array_of(json_of(*added));
        match items(added) {
            Some(values) => match r.add_tokens(values, Ghost(all_added)) {
                Ok(_) => {},
                Err(e) => {
                    return Err(e);
                },
            },
            None => {},
        }
        assert(with_added(no_words(), all_added, all_added.len() as int) == Ok::<Words, Seq<char>>(
            r@,
        ));
        let model = member(vocab_value, "model");
        let vocab = member(model, "vocab");
        let ghost all_words = object_of(json_of(*vocab));
        let ghost base = Words { found: json_of(*vocab) is Object, ..r@ };
        match members(vocab) {
            Some(entries) => {
                r.found = true;
                assert(r@ == base);
                match r.add_words(&entries, Ghost(all_words)) {
                    Ok(_) => {},
                    Err(e) => {
                        return Err(e);
                    },
                }
            },
            None => {
                r.found = false;
                assert(r@ == base);
            },
        }
        assert(with_words(base, all_words, all_words.len() as int) == Ok::<Words, Seq<char>>(r@));
        let merges = member(model, "merges");
        match items(merges) {
            Some(values) => match r.add_merges(values, Ghost(array_of(json_of(*merges)))) {
                Ok(_) => {},
                Err(e) => {
                    return Err(e);
                },
            },
            None => {},
        }
        Ok(r)
    }

    /// The length and the token of the special word that stands in `chars` at `cursor`.
    pub(crate) fn special_at(&self, chars: &Vec<char>, cursor: usize) -> (r: Option<(usize, u32)>)
        requires
            cursor <= chars@.len(),
        ensures
            match special_from(self@.specials, chars@, cursor as int, 0) {
                Some(k) => r == Some((self@.specials[k].0.len() as usize, self@.specials[k].1))
                    && 0 <= k < self@.specials.len() && self@.specials[k].0.len() <= usize::MAX
                    && stands_at(chars@, cursor as int, self@.specials[k].0),
                None => r is None,
            },
    {
        let mut k: usize = 0;
        while k < self.special_map.len()
            invariant
                cursor <= chars@.len(),
                k <= self.special_map@.len(),
                special_from(self@.specials, chars@, cursor as int, 0) == special_from(
                    self@.specials,
                    chars@,
                    cursor as int,
                    k as int,
                ),
            decreases self.special_map@.len() - k,
        {
            assert(self@.specials[k as int] == (
                self.special_map@[k as int].0@,
                self.special_map@[k as int].1,
            ));
            if word_stands_at(chars, cursor, &self.special_map[k].0) {
                return Some((self.special_map[k].0.len(), self.special_map[k].1));
            }
            k += 1;
        }
        None
    }

    pub(crate) fn has_empty_special(&self) -> (r: bool)
        ensures
            r == !specials_not_empty(self@.specials),
    {
        let mut k: usize = 0;
        while k < self.special_map.len()
            invariant
                k <= self.special_map@.len(),
                forall|i: int| 0 <= i < k ==> (#[trigger] self@.specials[i]).0.len() > 0,
            decreases self.special_map@.len() - k,
        {
            if self.special_map[k].0.len() == 0 {
                assert(self@.specials[k as int].0.len() == 0);
                return true;
            }
            k += 1;
        }
        false
    }

    pub(crate) fn ranks(&self) -> (r: &RankTable)
        ensures
            r@ == self@.ranks,
    {
        &self.rank_map
    }

    /// The token of a word.
    pub(crate) fn token(&self, word: &str) -> (r: Option<u32>)
        ensures
            r == (if self@.tokens.contains_key(word@) {
                Some(self@.tokens[word@])
            } else {
                None
            }),
    {
        match self.encode_map.get(word) {
            Some(id) => Some(*id),
            None => None,
        }
    }

    /// The word of a token.
    pub(crate) fn word(&self, token: u32) -> (r: Option<&String>)
        ensures
            match r {
                Some(word) => self@.words.contains_key(token) && word@ == self@.words[token],
                None => !self@.words.contains_key(token),
            },
    {
        broadcast use vstd::std_specs::hash::group_hash_axioms;

        self.decode_map.get(&token)
    }

    /// Whether the words were found where they should stand.
    pub(crate) fn is_found(&self) -> (r: bool)
        ensures
            r == self@.found,
    {
        self.found
    }
}

} // verus!
