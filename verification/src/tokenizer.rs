//! The tokenizer: text to tokens and tokens to text.
use serde_json::Value;
use std::collections::HashMap;
use vstd::prelude::*;
use vstd::slice::slice_subrange;
use vstd::utf8::{decode_utf8, encode_utf8, encode_utf8_decode_utf8, valid_utf8};

use crate::alphabet::{
    byte_read, is_reading_table, is_writing_table, letter, read_bytes, reading_table,
    writing_table, written,
};
use crate::bpe::{letters, merge, merged, texts, tokens_of};
use crate::json::{json_of, parse, parsed};
use crate::text::{
    chars_of, code_of, is_cut_short, lossy, lossy_text, push_char, string_of, utf8_text,
};
use crate::vocabulary::{
    lemma_special_stands, no_vocabulary, special_from, specials_not_empty, vocabulary_of,
    Vocabulary, Words,
};

verus! {

/// A stretch of a text: a special word, given by its token, or the characters from one place to
/// another.
pub enum Chunk {
    SpecialId(u32),
    Text(usize, usize),
}

/// The characters from `last` to `cursor`, if there are any.
pub open spec fn stretch(last: int, cursor: int) -> Seq<Chunk> {
    if last < cursor {
        seq![Chunk::Text(last as usize, cursor as usize)]
    } else {
        Seq::empty()
    }
}

/// The chunks of a text from `cursor` on, where the characters from `last` on are in no chunk yet.
pub open spec fn chunks_from(
    specials: Seq<(Seq<char>, u32)>,
    chars: Seq<char>,
    last: int,
    cursor: int,
) -> Seq<Chunk>
    decreases chars.len() - cursor,
{
    if cursor >= chars.len() {
        stretch(last, chars.len() as int)
    } else if !specials_not_empty(specials) {
        Seq::empty()
    } else {
        match special_from(specials, chars, cursor, 0) {
            Some(k) => {
                proof {
                    lemma_special_stands(specials, chars, cursor, 0);
                    assert(specials[k].0.len() > 0);
                }
                let next = cursor + specials[k].0.len();
                stretch(last, cursor) + seq![Chunk::SpecialId(specials[k].1)] + chunks_from(
                    specials,
                    chars,
                    next,
                    next,
                )
            },
            None => chunks_from(specials, chars, last, cursor + 1),
        }
    }
}

/// The parts into which a stretch of characters is merged.
pub open spec fn parts_of(words: Words, chars: Seq<char>) -> Seq<Seq<char>> {
    merged(words.ranks, letters(chars))
}

/// The tokens of a chunk.
pub open spec fn chunk_tokens(words: Words, chars: Seq<char>, chunk: Chunk) -> Seq<usize> {
    match chunk {
        Chunk::SpecialId(id) => seq![id as usize],
        Chunk::Text(from, to) => tokens_of(
            words.tokens,
            parts_of(words, chars.subrange(from as int, to as int)),
        ),
    }
}

/// The tokens of chunks, one behind the other.
pub open spec fn all_tokens(words: Words, chars: Seq<char>, chunks: Seq<Chunk>) -> Seq<usize>
    decreases chunks.len(),
{
    if chunks.len() == 0 {
        Seq::empty()
    } else {
        all_tokens(words, chars, chunks.drop_last()) + chunk_tokens(words, chars, chunks.last())
    }
}

/// The tokens of a text.
pub open spec fn encoded(words: Words, text: Seq<char>) -> Seq<usize> {
    let chars = written(encode_utf8(text));
    all_tokens(words, chars, chunks_from(words.specials, chars, 0, 0))
}

/// What is given out for bytes, and what is kept of them: text is given out, bytes that were cut
/// off inside a character are kept, and for other bytes a text that stands for them is given out.
pub open spec fn given_out(bytes: Seq<u8>) -> (Seq<char>, Seq<u8>) {
    if valid_utf8(bytes) {
        (decode_utf8(bytes), Seq::empty())
    } else if is_cut_short(bytes) {
        (Seq::empty(), bytes)
    } else {
        (lossy(bytes), Seq::empty())
    }
}

/// What is given out for a token, and which bytes are kept, after `kept` were.
pub open spec fn decoded(words: Words, kept: Seq<u8>, token: u32) -> (Seq<char>, Seq<u8>) {
    if words.words.contains_key(token) {
        given_out(kept + read_bytes(words.words[token]))
    } else {
        (Seq::empty(), kept)
    }
}

/// The tokenizer.
pub struct Tokenizer {
    vocab: Vocabulary,
    byte_encoder: HashMap<u8, char>,
    byte_decoder: HashMap<u32, u8>,
    buffer: Vec<u8>,
}

impl Tokenizer {
    /// The vocabulary of this tokenizer.
    pub closed spec fn words(&self) -> Words {
        self.vocab@
    }

    /// The bytes that were decoded and not given out yet.
    pub closed spec fn kept(&self) -> Seq<u8> {
        self.buffer@
    }

    /// The tables between bytes and characters are what they should be.
    pub closed spec fn wf(&self) -> bool {
        &&& is_writing_table(self.byte_encoder@)
        &&& is_reading_table(self.byte_decoder@)
    }

    /// Reads a tokenizer from the text of a `tokenizer.json`.
    pub fn new(vocab_raw_str: &str) -> (r: Result<Tokenizer, String>)
        ensures
            match parsed(vocab_raw_str@) {
                Some(j) => match r {
                    Ok(t) => t.wf() && t.kept().len() == 0 && vocabulary_of(j) == Ok::<
                        Words,
                        Seq<char>,
                    >(t.words()),
                    Err(e) => vocabulary_of(j) == Err::<Words, Seq<char>>(e@),
                },
                None => r matches Err(e) && e@ == no_vocabulary(),
            },
    {
        match parse(vocab_raw_str) {
            Ok(vocab_value) => Tokenizer::from_json(&vocab_value),
            Err(_) => Err("cannot convert to str".to_owned()),
        }
    }

    /// Reads a tokenizer from a JSON value.
    pub fn from_json(vocab_value: &Value) -> (r: Result<Tokenizer, String>)
        ensures
            match r {
                Ok(t) => t.wf() && t.kept().len() == 0 && vocabulary_of(json_of(*vocab_value))
                    == Ok::<Words, Seq<char>>(t.words()),
                Err(e) => vocabulary_of(json_of(*vocab_value)) == Err::<Words, Seq<char>>(e@),
            },
    {
        match Vocabulary::from_json(vocab_value) {
            Ok(vocab) => Ok(
                Tokenizer {
                    vocab,
                    byte_encoder: Self::bytes_to_unicode(),
                    byte_decoder: reading_table(),
                    buffer: Vec::new(),
                },
            ),
            Err(e) => Err(e),
        }
    }

    /// Whether the words of the vocabulary were found where they should stand.
    pub fn has_vocab(&self) -> (r: bool)
        ensures
            r == self.words().found,
    {
        self.vocab.is_found()
    }

    /// Whether some special word is empty, in which case only the empty text can be encoded.
    pub fn has_empty_special(&self) -> (r: bool)
        ensures
            r == !specials_not_empty(self.words().specials),
    {
        self.vocab.has_empty_special()
    }

    /// The character that is written for each byte.
    pub fn bytes_to_unicode() -> (table: HashMap<u8, char>)
        ensures
            forall|b: u8| #[trigger] table@.contains_key(b) && table@[b] == letter(b),
    {
        writing_table()
    }

    /// The tokens of a text. What the vocabulary does not know is passed over.
    pub fn encode(&self, text: &String) -> (r: Vec<usize>)
        requires
            self.wf(),
            text@.len() > 0 ==> specials_not_empty(self.words().specials),
        ensures
            r@ == encoded(self.words(), text@),
    {
        broadcast use vstd::std_specs::hash::group_hash_axioms;

        let bytes = text.as_str().as_bytes();
        let mut chars: Vec<char> = Vec::new();
        let mut i: usize = 0;
        while i < bytes.len()
            invariant
                self.wf(),
                i <= bytes@.len(),
                chars@ == written(bytes@).take(i as int),
            decreases bytes@.len() - i,
        {
            assert(self.byte_encoder@.contains_key(bytes@[i as int]));
            match self.byte_encoder.get(&bytes[i]) {
                Some(c) => {
                    chars.push(*c);
                },
                None => {},
            }
            proof {
                assert(written(bytes@).take(i + 1) =~= written(bytes@).take(i as int).push(
                    letter(bytes@[i as int]),
                ));
            }
            i += 1;
        }
        assert(chars@ =~= written(encode_utf8(text@)));
        let chunks = self.chunks(&chars);
        let mut result: Vec<usize> = Vec::new();
        let mut k: usize = 0;
        while k < chunks.len()
            invariant
                self.wf(),
                k <= chunks@.len(),
                chunks_fit(chunks@, chars@.len()),
                result@ == all_tokens(self.words(), chars@, chunks@.take(k as int)),
            decreases chunks@.len() - k,
        {
            assert(chunk_fits(chunks@[k as int], chars@.len()));
            assert(chunks@.take(k + 1).drop_last() =~= chunks@.take(k as int));
            match &chunks[k] {
                Chunk::SpecialId(id) => {
                    result.push(*id as usize);
                    assert(result@ =~= all_tokens(self.words(), chars@, chunks@.take(k + 1)));
                },
                Chunk::Text(from, to) => {
                    let part = slice_subrange(chars.as_slice(), *from, *to);
                    let mut tokens = self.bpe_merge_kernal(string_of(part).as_str());
                    result.append(&mut tokens);
                },
            }
            k += 1;
        }
        assert(chunks@.take(chunks@.len() as int) =~= chunks@);
        result
    }

    fn chunks(&self, chars: &Vec<char>) -> (r: Vec<Chunk>)
        requires
            chars@.len() > 0 ==> specials_not_empty(self.words().specials),
        ensures
            r@ == chunks_from(self.words().specials, chars@, 0, 0),
            chunks_fit(r@, chars@.len()),
    {
        let ghost specials = self.words().specials;
        let mut r: Vec<Chunk> = Vec::new();
        let mut last: usize = 0;
        let mut cursor: usize = 0;
        while cursor < chars.len()
            invariant
                specials == self.words().specials,
                chars@.len() > 0 ==> specials_not_empty(specials),
                last <= cursor <= chars@.len(),
                chunks_fit(r@, chars@.len()),
                r@ + chunks_from(specials, chars@, last as int, cursor as int) == chunks_from(
                    specials,
                    chars@,
                    0,
                    0,
                ),
            decreases chars@.len() - cursor,
        {
            let ghost before = r@;
            match self.vocab.special_at(chars, cursor) {
                Some((len, id)) => {
                    if last < cursor {
                        r.push(Chunk::Text(last, cursor));
                    }
                    r.push(Chunk::SpecialId(id));
                    proof {
                        let k = special_from(specials, chars@, cursor as int, 0)->0;
                        assert(specials[k].0.len() > 0);
                        let rest = chunks_from(specials, chars@, cursor + len, cursor + len);
                        assert(r@ =~= before + stretch(last as int, cursor as int) + seq![
                            Chunk::SpecialId(id),
                        ]);
                        assert(before + (stretch(last as int, cursor as int) + seq![
                            Chunk::SpecialId(id),
                        ] + rest) =~= r@ + rest);
                    }
                    cursor += len;
                    last = cursor;
                },
                None => {
                    cursor += 1;
                },
            }
        }
        proof {
            assert(r@ + stretch(last as int, chars@.len() as int) =~= chunks_from(
                specials,
                chars@,
                0,
                0,
            ));
        }
        if last < chars.len() {
            r.push(Chunk::Text(last, chars.len()));
        }
        r
    }

    /// The tokens of a text in which there are no special words.
    fn bpe_merge_kernal(&self, text: &str) -> (r: Vec<usize>)
        ensures
            r@ == tokens_of(self.words().tokens, parts_of(self.words(), text@)),
    {
        let chars = chars_of(text);
        let mut parts: Vec<String> = Vec::new();
        let mut i: usize = 0;
        while i < chars.len()
            invariant
                i <= chars@.len(),
                texts(parts@) == letters(chars@).take(i as int),
            decreases chars@.len() - i,
        {
            let mut part = String::new();
            push_char(&mut part, chars[i]);
            let ghost before = parts@;
            parts.push(part);
            proof {
                assert(part@ =~= seq![chars@[i as int]]);
                assert(texts(parts@) =~= texts(before).push(part@));
                assert(letters(chars@).take(i + 1) =~= letters(chars@).take(i as int).push(part@));
            }
            i += 1;
        }
        assert(letters(chars@).take(chars@.len() as int) =~= letters(chars@));
        merge(self.vocab.ranks(), &mut parts);
        let ghost all = texts(parts@);
        let mut tokens: Vec<usize> = Vec::new();
        let mut k: usize = 0;
        while k < parts.len()
            invariant
                k <= parts@.len(),
                all == texts(parts@),
                tokens@ == tokens_of(self.words().tokens, all.take(k as int)),
            decreases parts@.len() - k,
        {
            assert(all.take(k + 1).drop_last() =~= all.take(k as int));
            match self.vocab.token(parts[k].as_str()) {
                Some(id) => {
                    tokens.push(id as usize);
                },
                None => {},
            }
            k += 1;
        }
        assert(all.take(all.len() as int) =~= all);
        tokens
    }

    /// What a token adds to the text. Bytes that do not make up a whole character yet are kept for
    /// the next token.
    pub fn decode(&mut self, token_id: u32) -> (r: String)
        requires
            old(self).wf(),
        ensures
            final(self).wf(),
            final(self).words() == old(self).words(),
            (r@, final(self).kept()) == decoded(old(self).words(), old(self).kept(), token_id),
    {
        broadcast use vstd::std_specs::hash::group_hash_axioms;

        proof {
            reveal_strlit("");
            assert(""@ =~= Seq::<char>::empty());
        }
        let chars = match self.vocab.word(token_id) {
            Some(word) => chars_of(word.as_str()),
            None => {
                return "".to_owned();
            },
        };
        let ghost kept = self.buffer@;
        let mut i: usize = 0;
        while i < chars.len()
            invariant
                self.wf(),
                self.words() == old(self).words(),
                i <= chars@.len(),
                self.buffer@ == kept + read_bytes(chars@.take(i as int)),
            decreases chars@.len() - i,
        {
            let code = code_of(chars[i]);
            proof {
                assert(chars@.take(i + 1).drop_last() =~= chars@.take(i as int));
                assert(byte_read(code as int) is Some == self.byte_decoder@.contains_key(code));
            }
            match self.byte_decoder.get(&code) {
                Some(byte) => {
                    self.buffer.push(*byte);
                },
                None => {},
            }
            i += 1;
        }
        assert(chars@.take(chars@.len() as int) =~= chars@);
        match utf8_text(self.buffer.as_slice()) {
            Ok(text) => {
                let output = text.to_owned();
                proof {
                    encode_utf8_decode_utf8(output@);
                }
                self.buffer.clear();
                output
            },
            Err(cut) => {
                if cut {
                    "".to_owned()
                } else {
                    let output = lossy_text(self.buffer.as_slice());
                    self.buffer.clear();
                    output
                }
            },
        }
    }
}

/// A chunk lies within a text of `n` characters.
spec fn chunk_fits(chunk: Chunk, n: nat) -> bool {
    match chunk {
        Chunk::SpecialId(_) => true,
        Chunk::Text(from, to) => from <= to <= n,
    }
}

spec fn chunks_fit(chunks: Seq<Chunk>, n: nat) -> bool {
    forall|k: int| 0 <= k < chunks.len() ==> chunk_fits(#[trigger] chunks[k], n)
}

} // verus!
