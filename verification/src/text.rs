//! Characters, strings and their UTF-8 bytes.
use vstd::prelude::*;
use vstd::string::StringSliceAdditionalSpecFns;
use vstd::utf8::{encode_utf8, valid_utf8};

verus! {

/// `code` is the number of a character.
pub open spec fn is_scalar(code: int) -> bool {
    0 <= code <= 0xd7ff || 0xe000 <= code <= 0x10ffff
}

/// `bytes` is text that was cut off inside its last character: valid text, and behind it a part of
/// some character's bytes, not empty and not the whole of them.
pub open spec fn is_cut_short(bytes: Seq<u8>) -> bool {
    exists|n: int, c: char| #[trigger] is_cut_at(bytes, n, c)
}

/// `bytes` is text of `n` bytes, followed by the first of the bytes of `c`, but not all of them.
pub open spec fn is_cut_at(bytes: Seq<u8>, n: int, c: char) -> bool {
    let whole = encode_utf8(seq![c]);
    let part = bytes.skip(n);
    &&& 0 <= n < bytes.len()
    &&& valid_utf8(bytes.take(n))
    &&& part.len() < whole.len()
    &&& part == whole.take(part.len() as int)
}

/// The text that stands for bytes which need not be UTF-8, as [`lossy_text`] gives it.
pub uninterp spec fn lossy(bytes: Seq<u8>) -> Seq<char>;

/// `String::push` is trusted to append the character.
#[verifier::external_body]
pub(crate) fn push_char(text: &mut String, c: char)
    ensures
        final(text)@ == old(text)@.push(c),
{
    text.push(c);
}

/// `char::from_u32` is trusted to give the character with that number, if there is one.
#[verifier::external_body]
pub(crate) fn char_of(code: u32) -> (r: Option<char>)
    ensures
        r == if is_scalar(code as int) {
            Some(code as char)
        } else {
            None
        },
{
    char::from_u32(code)
}

/// `str::from_utf8` is trusted to accept exactly the valid bytes and to give the text with these
/// bytes; its error has no `error_len` exactly where the input was cut off inside a character.
#[verifier::external_body]
pub(crate) fn utf8_text<'a>(bytes: &'a [u8]) -> (r: Result<&'a str, bool>)
    ensures
        match r {
            Ok(text) => valid_utf8(bytes@) && text.spec_bytes() == bytes@,
            Err(cut) => !valid_utf8(bytes@) && cut == is_cut_short(bytes@),
        },
{
    std::str::from_utf8(bytes).map_err(|e| e.error_len().is_none())
}

/// `String::from_utf8_lossy` is trusted to give a text that depends on the bytes alone. How it
/// replaces what is not UTF-8 is left unsaid.
#[verifier::external_body]
pub(crate) fn lossy_text(bytes: &[u8]) -> (r: String)
    ensures
        r@ == lossy(bytes@),
{
    String::from_utf8_lossy(bytes).into_owned()
}

pub(crate) fn same_text(a: &str, b: &str) -> (r: bool)
    ensures
        r == (a@ == b@),
{
    a.to_owned() == b.to_owned()
}

pub(crate) fn code_of(c: char) -> (r: u32)
    ensures
        r == c as int,
{
    c as u32
}

pub(crate) fn chars_of(text: &str) -> (r: Vec<char>)
    ensures
        r@ == text@,
{
    let mut r: Vec<char> = Vec::new();
    for c in it: text.chars()
        invariant
            it.seq() == text@,
            r@ == it.seq().take(it.index() as int),
    {
        r.push(c);
    }
    r
}

pub(crate) fn string_of(chars: &[char]) -> (r: String)
    ensures
        r@ == chars@,
{
    let mut r = String::new();
    let mut i: usize = 0;
    while i < chars.len()
        invariant
            i <= chars@.len(),
            r@ == chars@.take(i as int),
        decreases chars@.len() - i,
    {
        push_char(&mut r, chars[i]);
        proof {
            assert(chars@.take(i + 1) =~= chars@.take(i as int).push(chars@[i as int]));
        }
        i += 1;
    }
    assert(chars@.take(chars@.len() as int) =~= chars@);
    r
}

} // verus!
