//! The alphabet in which a vocabulary writes bytes: a byte that can be seen stands for itself, the
//! others stand, in their order, for the characters from 256 on.
use std::collections::HashMap;
use vstd::prelude::*;

use crate::text::char_of;

verus! {

/// Whether a byte stands for itself. For reading, `0xae` does not.
pub open spec fn stands(reading: bool, b: int) -> bool {
    ||| 0x21 <= b <= 0x7e
    ||| 0xa1 <= b <= 0xac
    ||| 0xae <= b <= 0xff && !(reading && b == 0xae)
}

/// How many bytes below `b` do not stand for themselves.
pub open spec fn hidden_below(reading: bool, b: int) -> int
    decreases b,
{
    if b <= 0 {
        0
    } else if stands(reading, b - 1) {
        hidden_below(reading, b - 1)
    } else {
        hidden_below(reading, b - 1) + 1
    }
}

/// The number of the character for a byte.
pub open spec fn letter_code(reading: bool, b: int) -> int {
    if stands(reading, b) {
        b
    } else {
        256 + hidden_below(reading, b)
    }
}

/// The character that is written for a byte.
pub open spec fn letter(b: u8) -> char {
    letter_code(false, b as int) as char
}

/// The byte that is read from a character, if there is one.
pub open spec fn byte_read(code: int) -> Option<u8> {
    if exists|b: u8| letter_code(true, b as int) == code {
        Some(choose|b: u8| letter_code(true, b as int) == code)
    } else {
        None
    }
}

/// The characters that are written for bytes.
pub open spec fn written(bytes: Seq<u8>) -> Seq<char> {
    Seq::new(bytes.len(), |i: int| letter(bytes[i]))
}

/// The bytes that are read from characters; a character that stands for no byte is passed over.
pub open spec fn read_bytes(chars: Seq<char>) -> Seq<u8>
    decreases chars.len(),
{
    if chars.len() == 0 {
        Seq::empty()
    } else {
        let before = read_bytes(chars.drop_last());
        match byte_read(chars.last() as int) {
            Some(b) => before.push(b),
            None => before,
        }
    }
}

proof fn lemma_hidden_grows(reading: bool, a: int, b: int)
    requires
        0 <= a <= b,
    ensures
        0 <= hidden_below(reading, a) <= hidden_below(reading, b),
        hidden_below(reading, b) <= b,
        a < b && !stands(reading, a) ==> hidden_below(reading, a) < hidden_below(reading, b),
    decreases b,
{
    if b > 0 {
        if a < b {
            lemma_hidden_grows(reading, a, b - 1);
        } else {
            lemma_hidden_grows(reading, a - 1, b - 1);
        }
    }
}

pub(crate) proof fn lemma_letter_code(reading: bool, b: u8)
    ensures
        0 <= letter_code(reading, b as int) < 512,
        stands(reading, b as int) <==> letter_code(reading, b as int) < 256,
{
    lemma_hidden_grows(reading, b as int, b as int);
}

proof fn lemma_hidden_below(reading: bool, b: int)
    requires
        0 <= b <= 256,
    ensures
        hidden_below(reading, b) == (if b <= 33 {
            b
        } else if b <= 127 {
            33
        } else if b <= 161 {
            b - 94
        } else if b <= 173 {
            67
        } else if b == 174 || !reading {
            68
        } else {
            69
        }),
    decreases b,
{
    if b > 0 {
        lemma_hidden_below(reading, b - 1);
    }
}

/// The alphabet: `!` to `~`, and the characters from 161 on but for 173, stand for the bytes of
/// their number. The bytes up to 32 are written as the 33 characters from 256 on, those from 127
/// to 160 as the 34 behind them, and 173 as the next. A reader expects byte 174 behind that.
pub proof fn law_alphabet(b: u8)
    ensures
        letter(b) as int == (if b <= 32 {
            b + 256
        } else if 127 <= b <= 160 {
            b + 162
        } else if b == 173 {
            323
        } else {
            b as int
        }),
        byte_read(324) == Some(174u8),
        b != 174 ==> byte_read(letter(b) as int) == Some(b),
        byte_read(174) is None,
{
    lemma_hidden_below(false, b as int);
    lemma_hidden_below(true, 174);
    lemma_byte_read(174);
    if b != 174 {
        law_byte_reads_back(b);
    }
    if byte_read(174) is Some {
        let c = choose|c: u8| letter_code(true, c as int) == 174;
        lemma_letter_code(true, c);
        lemma_hidden_below(true, c as int);
    }
}

/// No two bytes stand for one character.
pub proof fn law_letters_differ(reading: bool, a: u8, b: u8)
    requires
        a != b,
    ensures
        letter_code(reading, a as int) != letter_code(reading, b as int),
{
    lemma_letter_code(reading, a);
    lemma_letter_code(reading, b);
    if a < b {
        lemma_hidden_grows(reading, a as int, b as int);
    } else {
        lemma_hidden_grows(reading, b as int, a as int);
    }
}

proof fn lemma_byte_read(b: u8)
    ensures
        byte_read(letter_code(true, b as int)) == Some(b),
{
    let c = choose|x: u8| letter_code(true, x as int) == letter_code(true, b as int);
    if c != b {
        law_letters_differ(true, b, c);
    }
}

proof fn lemma_hidden_agree(b: int)
    requires
        0 <= b <= 0xae,
    ensures
        hidden_below(true, b) == hidden_below(false, b),
    decreases b,
{
    if b > 0 {
        lemma_hidden_agree(b - 1);
    }
}

/// Each byte but `0xae` is read back from the character that is written for it.
pub proof fn law_byte_reads_back(b: u8)
    requires
        b != 0xae,
    ensures
        byte_read(letter(b) as int) == Some(b),
{
    lemma_letter_code(false, b);
    if b < 0xae {
        lemma_hidden_agree(b as int);
    }
    lemma_byte_read(b);
}

/// Bytes without `0xae` are read back from the characters that are written for them.
pub proof fn law_bytes_read_back(bytes: Seq<u8>)
    requires
        !bytes.contains(0xae),
    ensures
        read_bytes(written(bytes)) == bytes,
    decreases bytes.len(),
{
    if bytes.len() > 0 {
        let n = bytes.len() - 1;
        assert(bytes[n] != 0xae);
        assert(!bytes.drop_last().contains(0xae)) by {
            if bytes.drop_last().contains(0xae) {
                let i = choose|i: int| 0 <= i < n && bytes.drop_last()[i] == 0xae;
                assert(bytes[i] == 0xae);
            }
        }
        law_bytes_read_back(bytes.drop_last());
        law_byte_reads_back(bytes[n]);
        assert(written(bytes).drop_last() =~= written(bytes.drop_last()));
        assert(read_bytes(written(bytes)) =~= bytes);
    }
}

/// What is read from one text and then another is what is read from both together.
pub proof fn law_reading_concatenates(a: Seq<char>, b: Seq<char>)
    ensures
        read_bytes(a + b) == read_bytes(a) + read_bytes(b),
    decreases b.len(),
{
    if b.len() == 0 {
        assert(a + b =~= a);
        assert(read_bytes(a) + read_bytes(b) =~= read_bytes(a));
    } else {
        law_reading_concatenates(a, b.drop_last());
        assert((a + b).drop_last() =~= a + b.drop_last());
        assert((a + b).last() == b.last());
        assert(read_bytes(a + b) =~= read_bytes(a) + read_bytes(b));
    }
}

/// The table of the characters that are written for bytes.
pub open spec fn is_writing_table(table: Map<u8, char>) -> bool {
    forall|b: u8| #[trigger] table.contains_key(b) && table[b] == letter(b)
}

/// The table of the bytes that are read from characters.
pub open spec fn is_reading_table(table: Map<u32, u8>) -> bool {
    forall|code: u32|
        match byte_read(code as int) {
            Some(b) => #[trigger] table.contains_key(code) && table[code] == b,
            None => !table.contains_key(code),
        }
}

fn stands_for_itself(reading: bool, b: u32) -> (r: bool)
    ensures
        r == stands(reading, b as int),
{
    (0x21 <= b && b <= 0x7e) || (0xa1 <= b && b <= 0xac) || (0xae <= b && b <= 0xff && !(reading
        && b == 0xae))
}

pub(crate) fn writing_table() -> (table: HashMap<u8, char>)
    ensures
        is_writing_table(table@),
{
    broadcast use vstd::std_specs::hash::group_hash_axioms;

    let mut table: HashMap<u8, char> = HashMap::new();
    let mut n: u32 = 0;
    let mut i: u32 = 0;
    while i < 256
        invariant
            i <= 256,
            n == hidden_below(false, i as int),
            n <= i,
            forall|b: u8|
                b < i ==> #[trigger] table@.contains_key(b) && table@[b] == letter(b),
        decreases 256 - i,
    {
        let b = i as u8;
        proof {
            lemma_letter_code(false, b);
            lemma_hidden_grows(false, i as int, i + 1);
        }
        let ghost before = table@;
        if stands_for_itself(false, i) {
            table.insert(b, b as char);
        } else {
            match char_of(256 + n) {
                Some(c) => {
                    table.insert(b, c);
                },
                None => {},
            }
            n += 1;
        }
        i += 1;
        proof {
            assert forall|x: u8| x < i implies #[trigger] table@.contains_key(x) && table@[x]
                == letter(x) by {
                assert(x + 1 < i ==> before.contains_key(x));
            }
        }
    }
    table
}

pub(crate) fn reading_table() -> (table: HashMap<u32, u8>)
    ensures
        is_reading_table(table@),
{
    broadcast use vstd::std_specs::hash::group_hash_axioms;

    let mut table: HashMap<u32, u8> = HashMap::new();
    let mut n: u32 = 0;
    let mut i: u32 = 0;
    while i < 256
        invariant
            i <= 256,
            n == hidden_below(true, i as int),
            n <= i,
            forall|b: u8|
                b < i ==> table@.contains_key(#[trigger] letter_code(true, b as int) as u32)
                    && table@[letter_code(true, b as int) as u32] == b,
            forall|code: u32| #[trigger]
                table@.contains_key(code) ==> table@[code] < i && letter_code(
                    true,
                    table@[code] as int,
                ) == code,
        decreases 256 - i,
    {
        let b = i as u8;
        proof {
            lemma_hidden_grows(true, i as int, i + 1);
            assert forall|c: u8| true implies 0 <= #[trigger] letter_code(true, c as int) < 512 by {
                lemma_letter_code(true, c);
            }
            assert forall|c: u8| c < i implies #[trigger] letter_code(true, c as int)
                != letter_code(true, b as int) by {
                law_letters_differ(true, c, b);
            }
        }
        if stands_for_itself(true, i) {
            table.insert(i, b);
        } else {
            table.insert(256 + n, b);
            n += 1;
        }
        i += 1;
    }
    proof {
        assert forall|code: u32|
            match byte_read(code as int) {
                Some(b) => #[trigger] table@.contains_key(code) && table@[code] == b,
                None => !table@.contains_key(code),
            } by {
            if table@.contains_key(code) {
                lemma_byte_read(table@[code]);
            } else if exists|b: u8| letter_code(true, b as int) == code {
                let b = choose|b: u8| letter_code(true, b as int) == code;
                assert(table@.contains_key(letter_code(true, b as int) as u32));
            }
        }
    }
    table
}

} // verus!
