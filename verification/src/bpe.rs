//! Byte-pair merging: adjacent parts of a text are joined, the pair of lowest rank first.
use std::collections::HashMap;
use vstd::bytes::{
    lemma_auto_spec_u128_to_from_le_bytes, spec_u128_from_le_bytes, spec_u128_to_le_bytes,
    u128_from_le_bytes,
};
use vstd::prelude::*;
use vstd::string::StringExecFns;
use vstd::utf8::encode_utf8;

verus! {

/// The key of a part in a table of ranks: the first sixteen of its bytes, filled up with zeros.
pub open spec fn key16(bytes: Seq<u8>) -> Seq<u8> {
    Seq::new(
        16,
        |i: int|
            if i < bytes.len() {
                bytes[i]
            } else {
                0u8
            },
    )
}

/// The rank of each pair of keys that can be merged.
pub struct RankTable {
    map: HashMap<u128, HashMap<u128, usize>>,
}

impl View for RankTable {
    type V = Map<(Seq<u8>, Seq<u8>), usize>;

    closed spec fn view(&self) -> Map<(Seq<u8>, Seq<u8>), usize> {
        Map::new(
            |p: (Seq<u8>, Seq<u8>)| table_has(self.map@, p),
            |p: (Seq<u8>, Seq<u8>)| table_rank(self.map@, p),
        )
    }
}

spec fn table_has(map: Map<u128, HashMap<u128, usize>>, p: (Seq<u8>, Seq<u8>)) -> bool {
    &&& p.0.len() == 16
    &&& p.1.len() == 16
    &&& map.contains_key(spec_u128_from_le_bytes(p.0))
    &&& map[spec_u128_from_le_bytes(p.0)]@.contains_key(spec_u128_from_le_bytes(p.1))
}

spec fn table_rank(map: Map<u128, HashMap<u128, usize>>, p: (Seq<u8>, Seq<u8>)) -> usize {
    map[spec_u128_from_le_bytes(p.0)]@[spec_u128_from_le_bytes(p.1)]
}

fn number16(bytes: &[u8]) -> (r: u128)
    ensures
        r == spec_u128_from_le_bytes(key16(bytes@)),
{
    let mut key: Vec<u8> = Vec::new();
    let mut i: usize = 0;
    while i < 16
        invariant
            i <= 16,
            key@.len() == i,
            forall|j: int| 0 <= j < i ==> key@[j] == key16(bytes@)[j],
        decreases 16 - i,
    {
        if i < bytes.len() {
            key.push(bytes[i]);
        } else {
            key.push(0);
        }
        i += 1;
    }
    assert(key@ =~= key16(bytes@));
    u128_from_le_bytes(key.as_slice())
}

impl RankTable {
    /// A table without ranks.
    pub fn new() -> (r: RankTable)
        ensures
            r@ == Map::<(Seq<u8>, Seq<u8>), usize>::empty(),
    {
        let r = RankTable { map: HashMap::new() };
        assert(r@ =~= Map::<(Seq<u8>, Seq<u8>), usize>::empty());
        r
    }

    /// Sets the rank of a pair.
    pub fn insert(&mut self, left: &[u8], right: &[u8], rank: usize)
        ensures
            final(self)@ == old(self)@.insert((key16(left@), key16(right@)), rank),
    {
        broadcast use vstd::std_specs::hash::group_hash_axioms;

        let l = number16(left);
        let r = number16(right);
        let ghost before = self.map@;
        let mut row: HashMap<u128, usize> = match self.map.remove(&l) {
            Some(row) => row,
            None => HashMap::new(),
        };
        let ghost row0 = row@;
        row.insert(r, rank);
        self.map.insert(l, row);
        proof {
            lemma_auto_spec_u128_to_from_le_bytes();
            let key = (key16(left@), key16(right@));
            let after = self.map@;
            assert forall|p: (Seq<u8>, Seq<u8>)| #[trigger]
                self@.contains_key(p) == old(self)@.insert(key, rank).contains_key(p) by {
                assert(spec_u128_to_le_bytes(spec_u128_from_le_bytes(key.0)) == key.0);
                assert(spec_u128_to_le_bytes(spec_u128_from_le_bytes(key.1)) == key.1);
                if p.0.len() == 16 && p.1.len() == 16 {
                    assert(spec_u128_to_le_bytes(spec_u128_from_le_bytes(p.0)) == p.0);
                    assert(spec_u128_to_le_bytes(spec_u128_from_le_bytes(p.1)) == p.1);
                }
            }
            assert forall|p: (Seq<u8>, Seq<u8>)| #[trigger]
                self@.contains_key(p) implies self@[p] == old(self)@.insert(key, rank)[p] by {
                assert(spec_u128_to_le_bytes(spec_u128_from_le_bytes(key.0)) == key.0);
                assert(spec_u128_to_le_bytes(spec_u128_from_le_bytes(key.1)) == key.1);
                assert(spec_u128_to_le_bytes(spec_u128_from_le_bytes(p.0)) == p.0);
                assert(spec_u128_to_le_bytes(spec_u128_from_le_bytes(p.1)) == p.1);
            }
            assert(self@ =~= old(self)@.insert(key, rank));
        }
    }

    /// The rank of a pair, if it has one.
    pub fn get(&self, left: &[u8], right: &[u8]) -> (r: Option<usize>)
        ensures
            r == (if self@.contains_key((key16(left@), key16(right@))) {
                Some(self@[(key16(left@), key16(right@))])
            } else {
                None
            }),
    {
        broadcast use vstd::std_specs::hash::group_hash_axioms;

        match self.map.get(&number16(left)) {
            Some(row) => match row.get(&number16(right)) {
                Some(rank) => Some(*rank),
                None => None,
            },
            None => None,
        }
    }
}

/// The rank at which two parts are merged, if they are.
pub open spec fn pair_rank(
    ranks: Map<(Seq<u8>, Seq<u8>), usize>,
    left: Seq<char>,
    right: Seq<char>,
) -> Option<usize> {
    let key = (key16(encode_utf8(left)), key16(encode_utf8(right)));
    if ranks.contains_key(key) && ranks[key] < usize::MAX {
        Some(ranks[key])
    } else {
        None
    }
}

/// The rank of the pair that starts with part `i`.
pub open spec fn rank_at(
    ranks: Map<(Seq<u8>, Seq<u8>), usize>,
    parts: Seq<Seq<char>>,
    i: int,
) -> Option<usize> {
    pair_rank(ranks, parts[i], parts[i + 1])
}

/// Of the pairs before `n`, the one that starts with part `i` has the lowest rank, and no other
/// of that rank stands before it.
pub open spec fn is_best_of(
    ranks: Map<(Seq<u8>, Seq<u8>), usize>,
    parts: Seq<Seq<char>>,
    n: int,
    i: int,
) -> bool {
    &&& 0 <= i < n
    &&& rank_at(ranks, parts, i) is Some
    &&& forall|j: int|
        0 <= j < n ==> match #[trigger] rank_at(ranks, parts, j) {
            Some(rank) => if j < i {
                rank_at(ranks, parts, i)->0 < rank
            } else {
                rank_at(ranks, parts, i)->0 <= rank
            },
            None => true,
        }
}

/// The pair that starts with part `i` is merged first.
pub open spec fn is_best(
    ranks: Map<(Seq<u8>, Seq<u8>), usize>,
    parts: Seq<Seq<char>>,
    i: int,
) -> bool {
    is_best_of(ranks, parts, parts.len() - 1, i)
}

/// The parts after the pair that starts with part `i` was joined.
pub open spec fn joined(parts: Seq<Seq<char>>, i: int) -> Seq<Seq<char>> {
    parts.update(i, parts[i] + parts[i + 1]).remove(i + 1)
}

/// The parts that remain when no pair can be merged any more.
pub open spec fn merged(
    ranks: Map<(Seq<u8>, Seq<u8>), usize>,
    parts: Seq<Seq<char>>,
) -> Seq<Seq<char>>
    decreases parts.len(),
{
    if exists|i: int| is_best(ranks, parts, i) {
        merged(ranks, joined(parts, choose|i: int| is_best(ranks, parts, i)))
    } else {
        parts
    }
}

/// The characters of a text, each a part of its own.
pub open spec fn letters(text: Seq<char>) -> Seq<Seq<char>> {
    Seq::new(text.len(), |i: int| seq![text[i]])
}

/// The tokens of the parts that the vocabulary knows.
pub open spec fn tokens_of(tokens: Map<Seq<char>, u32>, parts: Seq<Seq<char>>) -> Seq<usize>
    decreases parts.len(),
{
    if parts.len() == 0 {
        Seq::empty()
    } else {
        let before = tokens_of(tokens, parts.drop_last());
        if tokens.contains_key(parts.last()) {
            before.push(tokens[parts.last()] as usize)
        } else {
            before
        }
    }
}

proof fn lemma_best_is_one(
    ranks: Map<(Seq<u8>, Seq<u8>), usize>,
    parts: Seq<Seq<char>>,
    n: int,
    i: int,
    j: int,
)
    requires
        is_best_of(ranks, parts, n, i),
        is_best_of(ranks, parts, n, j),
    ensures
        i == j,
{
    assert(rank_at(ranks, parts, i) is Some);
    assert(rank_at(ranks, parts, j) is Some);
}

/// Merging keeps the text: the parts that remain are, one behind the other, the parts that were
/// given.
pub proof fn law_merging_keeps_text(
    ranks: Map<(Seq<u8>, Seq<u8>), usize>,
    parts: Seq<Seq<char>>,
)
    ensures
        merged(ranks, parts).flatten() == parts.flatten(),
    decreases parts.len(),
{
    if exists|i: int| is_best(ranks, parts, i) {
        let i = choose|i: int| is_best(ranks, parts, i);
        law_merging_keeps_text(ranks, joined(parts, i));
        lemma_joining_keeps_text(parts, i);
    }
}

proof fn lemma_joining_keeps_text(parts: Seq<Seq<char>>, i: int)
    requires
        0 <= i < parts.len() - 1,
    ensures
        joined(parts, i).flatten() == parts.flatten(),
    decreases i,
{
    let rest = parts.drop_first();
    let whole = joined(parts, i);
    if i == 0 {
        assert(whole.first() == parts[0] + parts[1]);
        assert(whole.drop_first() =~= rest.drop_first());
        assert(rest.flatten() == rest.first() + rest.drop_first().flatten());
        assert(whole.flatten() =~= parts.flatten());
    } else {
        lemma_joining_keeps_text(rest, i - 1);
        assert(whole.drop_first() =~= joined(rest, i - 1));
        assert(whole.first() == parts.first());
    }
}

/// When merging has ended no pair has a rank.
pub proof fn law_merging_ends(ranks: Map<(Seq<u8>, Seq<u8>), usize>, parts: Seq<Seq<char>>)
    ensures
        forall|i: int|
            0 <= i < merged(ranks, parts).len() - 1 ==> #[trigger] rank_at(
                ranks,
                merged(ranks, parts),
                i,
            ) is None,
    decreases parts.len(),
{
    if exists|i: int| is_best(ranks, parts, i) {
        law_merging_ends(ranks, joined(parts, choose|i: int| is_best(ranks, parts, i)));
    } else {
        let n = parts.len() - 1;
        lemma_best_exists(ranks, parts, n);
        if exists|i: int| is_best_of(ranks, parts, n, i) {
            assert(is_best(ranks, parts, choose|i: int| is_best_of(ranks, parts, n, i)));
        }
    }
}

proof fn lemma_best_exists(
    ranks: Map<(Seq<u8>, Seq<u8>), usize>,
    parts: Seq<Seq<char>>,
    n: int,
)
    ensures
        (exists|i: int| is_best_of(ranks, parts, n, i)) || (forall|i: int|
            0 <= i < n ==> #[trigger] rank_at(ranks, parts, i) is None),
    decreases n,
{
    if n > 0 {
        lemma_best_exists(ranks, parts, n - 1);
        let k = n - 1;
        let last = rank_at(ranks, parts, k);
        if exists|i: int| is_best_of(ranks, parts, k, i) {
            let i = choose|i: int| is_best_of(ranks, parts, k, i);
            if last is Some && last->0 < rank_at(ranks, parts, i)->0 {
                assert(is_best_of(ranks, parts, n, k));
            } else {
                assert(is_best_of(ranks, parts, n, i));
            }
        } else if last is Some {
            assert(is_best_of(ranks, parts, n, k));
        }
    }
}

/// The key of a part has sixteen bytes: its own first ones, and zeros behind them.
pub proof fn law_key_is_the_first_bytes(bytes: Seq<u8>)
    ensures
        key16(bytes).len() == 16,
        bytes.len() >= 16 ==> key16(bytes) == bytes.subrange(0, 16),
        bytes.len() < 16 ==> key16(bytes) == bytes + Seq::new(
            (16 - bytes.len()) as nat,
            |i: int| 0u8,
        ),
{
}

/// The pair of the lowest rank is merged first, and of several of that rank the leftmost: where
/// each pair with a rank that starts in front of part `i` has a greater one, and each that starts
/// behind it no lower one, merging goes on with parts `i` and `i + 1` as one.
pub proof fn law_lowest_rank_is_merged_first(
    ranks: Map<(Seq<u8>, Seq<u8>), usize>,
    parts: Seq<Seq<char>>,
    i: int,
    rank: usize,
)
    requires
        0 <= i < parts.len() - 1,
        rank < usize::MAX,
        ranks.contains_pair(
            (key16(encode_utf8(parts[i])), key16(encode_utf8(parts[i + 1]))),
            rank,
        ),
        forall|j: int|
            0 <= j < parts.len() - 1 ==> match #[trigger] rank_at(ranks, parts, j) {
                Some(other) => if j < i {
                    rank < other
                } else {
                    rank <= other
                },
                None => true,
            },
    ensures
        merged(ranks, parts) == merged(
            ranks,
            parts.take(i) + seq![parts[i] + parts[i + 1]] + parts.skip(i + 2),
        ),
{
    assert(rank_at(ranks, parts, i) == Some(rank));
    assert(is_best(ranks, parts, i));
    let b = choose|b: int| is_best(ranks, parts, b);
    lemma_best_is_one(ranks, parts, parts.len() - 1, i, b);
    assert(joined(parts, i) =~= parts.take(i) + seq![parts[i] + parts[i + 1]] + parts.skip(i + 2));
}

/// A pair has a rank if and only if the table holds the keys of its two parts in their order, with
/// a rank below the greatest machine word.
pub proof fn law_rank_is_that_of_the_keys(
    ranks: Map<(Seq<u8>, Seq<u8>), usize>,
    parts: Seq<Seq<char>>,
    i: int,
    rank: usize,
)
    ensures
        rank_at(ranks, parts, i) == Some(rank) <==> rank != usize::MAX && ranks.contains_pair(
            (key16(encode_utf8(parts[i])), key16(encode_utf8(parts[i + 1]))),
            rank,
        ),
{
}

/// Parts of which no two neighbours have a rank stay as they are.
pub proof fn law_without_ranks_parts_stay(
    ranks: Map<(Seq<u8>, Seq<u8>), usize>,
    parts: Seq<Seq<char>>,
)
    requires
        forall|i: int|
            0 <= i < parts.len() - 1 ==> !ranks.contains_key(
                (
                    key16(encode_utf8(#[trigger] parts[i])),
                    key16(encode_utf8(parts[i + 1])),
                ),
            ),
    ensures
        merged(ranks, parts) == parts,
{
    if exists|i: int| is_best(ranks, parts, i) {
        let i = choose|i: int| is_best(ranks, parts, i);
        assert(rank_at(ranks, parts, i) is Some);
        assert(!ranks.contains_key(
            (key16(encode_utf8(parts[i])), key16(encode_utf8(parts[i + 1]))),
        ));
    }
}

/// The tokens of parts are those of the first ones and then those of the rest.
pub proof fn law_tokens_concatenate(
    tokens: Map<Seq<char>, u32>,
    a: Seq<Seq<char>>,
    b: Seq<Seq<char>>,
)
    ensures
        tokens_of(tokens, a + b) == tokens_of(tokens, a) + tokens_of(tokens, b),
    decreases b.len(),
{
    if b.len() == 0 {
        assert(a + b =~= a);
    } else {
        law_tokens_concatenate(tokens, a, b.drop_last());
        assert((a + b).drop_last() =~= a + b.drop_last());
        assert(tokens_of(tokens, a + b) =~= tokens_of(tokens, a) + tokens_of(tokens, b));
    }
}

/// A part that the vocabulary knows has its token, another has none.
pub proof fn law_part_has_its_token(tokens: Map<Seq<char>, u32>, part: Seq<char>)
    ensures
        tokens.contains_key(part) ==> tokens_of(tokens, seq![part]) == seq![tokens[part] as usize],
        !tokens.contains_key(part) ==> tokens_of(tokens, seq![part]).len() == 0,
{
    assert(seq![part].drop_last() =~= Seq::<Seq<char>>::empty());
    reveal_with_fuel(tokens_of, 2);
    if tokens.contains_key(part) {
        assert(tokens_of(tokens, seq![part]) =~= seq![tokens[part] as usize]);
    }
}

/// A text starts out as its characters: there are as many parts, each of them one character, and
/// one behind the other they are the text.
pub proof fn law_letters_are_the_text(text: Seq<char>)
    ensures
        letters(text).len() == text.len(),
        forall|i: int| 0 <= i < text.len() ==> #[trigger] letters(text)[i] == seq![text[i]],
        letters(text).flatten() == text,
    decreases text.len(),
{
    if text.len() > 0 {
        let rest = text.drop_first();
        law_letters_are_the_text(rest);
        assert(letters(text).drop_first() =~= letters(rest));
        assert(letters(text).first() =~= seq![text[0]]);
        assert(text =~= seq![text[0]] + rest);
    } else {
        assert(letters(text).flatten() =~= text);
    }
}

/// The texts that strings hold.
pub open spec fn texts(parts: Seq<String>) -> Seq<Seq<char>> {
    Seq::new(parts.len(), |i: int| parts[i]@)
}

fn best_pair(ranks: &RankTable, parts: &Vec<String>) -> (r: Option<usize>)
    requires
        parts@.len() >= 1,
    ensures
        match r {
            Some(i) => is_best(ranks@, texts(parts@), i as int),
            None => forall|i: int| !is_best(ranks@, texts(parts@), i),
        },
{
    let mut best_rank: usize = usize::MAX;
    let mut best: Option<usize> = None;
    let ghost seen = texts(parts@);
    let n = parts.len() - 1;
    let mut i: usize = 0;
    while i < n
        invariant
            i <= n,
            n == parts@.len() - 1,
            seen == texts(parts@),
            match best {
                Some(b) => is_best_of(ranks@, seen, i as int, b as int) && rank_at(
                    ranks@,
                    seen,
                    b as int,
                ) == Some(best_rank),
                None => best_rank == usize::MAX && forall|j: int|
                    0 <= j < i ==> #[trigger] rank_at(ranks@, seen, j) is None,
            },
        decreases n - i,
    {
        let found = ranks.get(parts[i].as_str().as_bytes(), parts[i + 1].as_str().as_bytes());
        match found {
            Some(rank) => {
                if rank < best_rank {
                    best_rank = rank;
                    best = Some(i);
                    assert(rank_at(ranks@, seen, i as int) == Some(rank));
                }
            },
            None => {
                assert(rank_at(ranks@, seen, i as int) is None);
            },
        }
        i += 1;
    }
    proof {
        if best is None {
            assert forall|j: int| !is_best(ranks@, seen, j) by {
                if is_best(ranks@, seen, j) {
                    assert(rank_at(ranks@, seen, j) is Some);
                }
            }
        }
    }
    best
}

pub(crate) fn merge(ranks: &RankTable, parts: &mut Vec<String>)
    ensures
        texts(final(parts)@) == merged(ranks@, texts(old(parts)@)),
{
    let ghost all = texts(parts@);
    while parts.len() >= 2
        invariant
            merged(ranks@, texts(parts@)) == merged(ranks@, all),
        ensures
            texts(parts@) == merged(ranks@, all),
        decreases parts.len(),
    {
        let ghost before = texts(parts@);
        match best_pair(ranks, parts) {
            None => {
                break;
            },
            Some(i) => {
                let right = parts.remove(i + 1);
                let mut left = parts[i].clone();
                left.append(right.as_str());
                parts[i] = left;
                proof {
                    let b = choose|b: int| is_best(ranks@, before, b);
                    lemma_best_is_one(ranks@, before, before.len() - 1, i as int, b);
                    assert(texts(parts@) =~= joined(before, i as int));
                }
            },
        }
    }
}

} // verus!
