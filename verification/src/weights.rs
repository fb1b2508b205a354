//! Weights as they stand in a `safetensors` file: eight bytes for the size of the header, the
//! header, which is JSON and says where each weight stands, and the bytes of the weights.
use serde_json::Value;
use vstd::prelude::*;
use vstd::slice::slice_subrange;

use crate::arith::{of_bits, Arith};
use crate::bytes::{le16, le32, le64, read_i8, read_u16, read_u32, read_u64, signed};
use crate::json::{holds_items, items, json_of, member, member_of, text_of, unsigned, Json};
use crate::tensor::{lemma_product_step, product, tails_fit, BlockQ8_0, WeightData, WeightTensor};
use crate::text::same_text;

verus! {

/// How many bytes a block of quantized weights takes.
pub const BLOCK_BYTES: usize = 36;

/// How many bytes stand before the header.
pub const PREFIX_BYTES: usize = 8;

/// The size of the header, by the bytes of the file.
pub open spec fn header_len(bytes: Seq<u8>) -> int {
    le64(bytes, 0)
}

/// The bytes have a header.
pub open spec fn has_header(bytes: Seq<u8>) -> bool {
    &&& bytes.len() >= PREFIX_BYTES
    &&& PREFIX_BYTES + header_len(bytes) <= bytes.len()
}

/// The header of a file and its size, if the file is long enough for it.
pub fn read_header<'a>(bytes: &'a [u8]) -> (r: Option<(usize, &'a [u8])>)
    ensures
        match r {
            Some((size, header)) => has_header(bytes@) && size == header_len(bytes@) && header@
                == bytes@.subrange(PREFIX_BYTES as int, PREFIX_BYTES + size),
            None => !has_header(bytes@),
        },
{
    let total = bytes.len();
    if total < PREFIX_BYTES {
        return None;
    }
    let size = read_u64(bytes, 0);
    if size > (total - PREFIX_BYTES) as u64 {
        return None;
    }
    let size = size as usize;
    Some((size, slice_subrange(bytes, PREFIX_BYTES, PREFIX_BYTES + size)))
}

/// What the header says of a weight: where its bytes start and end, in which form they are, and
/// its dimensions.
pub ghost struct Entry {
    pub offsets: Seq<usize>,
    pub dtype: Seq<char>,
    pub shape: Seq<usize>,
}

/// What is said where the place of a weight is missing.
pub open spec fn no_offsets() -> Seq<char> {
    "cannot extract token offset"@
}

/// What is said where the form of a weight is missing.
pub open spec fn no_dtype() -> Seq<char> {
    "cannot extract dtype."@
}

/// What is said where the dimensions of a weight are missing.
pub open spec fn no_shape() -> Seq<char> {
    "cannot extract token shape"@
}

/// What is said of a place or a dimension that is no integer.
pub open spec fn no_number() -> Seq<char> {
    "cannot convert num to u64."@
}

/// What is said of a weight that lies outside of the file, or has too many elements.
pub open spec fn no_room() -> Seq<char> {
    "weight does not fit the file"@
}

/// What is said of bytes that are no half words.
pub open spec fn no_halves() -> Seq<char> {
    "cannot convert to &[f32]"@
}

/// What is said of bytes that are no blocks, or no numbers.
pub open spec fn no_blocks() -> Seq<char> {
    "cannot convert to &[q8]"@
}

/// Each item is an integer that is not negative.
pub open spec fn are_unsigned(items: Seq<Json>) -> bool {
    forall|i: int| 0 <= i < items.len() ==> (#[trigger] items[i]) is Unsigned
}

/// The integers of an array.
pub open spec fn numbers_of(j: Json, missing: Seq<char>) -> Result<Seq<usize>, Seq<char>> {
    match j {
        Json::Array(items) => if are_unsigned(items) {
            Ok(Seq::new(items.len(), |i: int| items[i]->Unsigned_0 as usize))
        } else {
            Err(no_number())
        },
        _ => Err(missing),
    }
}

/// What the header says of a weight, or why it says nothing.
pub open spec fn entry_of(j: Json) -> Result<Entry, Seq<char>> {
    match numbers_of(member_of(j, "data_offsets"@), no_offsets()) {
        Err(e) => Err(e),
        Ok(offsets) => match member_of(j, "dtype"@) {
            Json::Text(dtype) => match numbers_of(member_of(j, "shape"@), no_shape()) {
                Err(e) => Err(e),
                Ok(shape) => Ok(Entry { offsets, dtype, shape }),
            },
            _ => Err(no_dtype()),
        },
    }
}

/// The weight lies within a file of `len` bytes, and its dimensions are those of a tensor.
pub open spec fn has_room(entry: Entry, header_size: int, len: int) -> bool {
    &&& entry.offsets.len() >= 2
    &&& entry.offsets[0] <= entry.offsets[1]
    &&& PREFIX_BYTES + header_size + entry.offsets[1] <= len
    &&& tails_fit(entry.shape)
}

/// The bytes of a weight.
pub open spec fn raw_of(entry: Entry, header_size: int, bytes: Seq<u8>) -> Seq<u8> {
    bytes.subrange(
        PREFIX_BYTES + header_size + entry.offsets[0],
        PREFIX_BYTES + header_size + entry.offsets[1],
    )
}

/// The half words that bytes hold.
pub open spec fn holds_halves(raw: Seq<u8>, words: Seq<u16>) -> bool {
    &&& 2 * words.len() == raw.len()
    &&& forall|i: int| 0 <= i < words.len() ==> #[trigger] words[i] == le16(raw, 2 * i)
}

/// Bytes, from `at` on, hold a block.
pub open spec fn holds_block<T: Copy, A: Arith<T>>(
    ar: &A,
    raw: Seq<u8>,
    at: int,
    block: BlockQ8_0<T>,
) -> bool {
    &&& of_bits(ar, le32(raw, at) as u32, block.d)
    &&& forall|j: int| 0 <= j < 32 ==> #[trigger] block.qs@[j] == signed(raw[at + 4 + j])
}

/// The blocks that bytes hold.
pub open spec fn holds_blocks<T: Copy, A: Arith<T>>(
    ar: &A,
    raw: Seq<u8>,
    blocks: Seq<BlockQ8_0<T>>,
) -> bool {
    &&& BLOCK_BYTES * blocks.len() == raw.len()
    &&& forall|i: int|
        0 <= i < blocks.len() ==> holds_block(ar, raw, BLOCK_BYTES * i, #[trigger] blocks[i])
}

/// The numbers that bytes hold.
pub open spec fn holds_numbers<T: Copy, A: Arith<T>>(
    ar: &A,
    raw: Seq<u8>,
    numbers: Seq<T>,
) -> bool {
    &&& 4 * numbers.len() == raw.len()
    &&& forall|i: int|
        0 <= i < numbers.len() ==> of_bits(ar, le32(raw, 4 * i) as u32, #[trigger] numbers[i])
}

/// The elements of a weight, in one of the three forms.
pub enum StoredData<T> {
    BF16(Vec<u16>),
    Q8(Vec<BlockQ8_0<T>>),
    F32(Vec<T>),
}

/// A weight that was read from a file.
pub struct StoredWeight<T> {
    pub data: StoredData<T>,
    pub shape: Vec<usize>,
}

impl<T> StoredWeight<T> {
    /// The weight as a tensor.
    pub fn tensor<'a>(&'a self) -> (r: WeightTensor<'a, T>)
        requires
            tails_fit(self.shape@),
        ensures
            r.wf(),
            r.shape@ == self.shape@,
            match self.data {
                StoredData::BF16(words) => r.data matches WeightData::BF16(s) && s@ == words@,
                StoredData::Q8(blocks) => r.data matches WeightData::Q8(s) && s@ == blocks@,
                StoredData::F32(numbers) => r.data matches WeightData::F32(s) && s@ == numbers@,
            },
    {
        let mut shape: Vec<usize> = Vec::new();
        shape.extend_from_slice(self.shape.as_slice());
        assert(shape@ =~= self.shape@);
        let data = match &self.data {
            StoredData::BF16(words) => WeightData::BF16(words.as_slice()),
            StoredData::Q8(blocks) => WeightData::Q8(blocks.as_slice()),
            StoredData::F32(numbers) => WeightData::F32(numbers.as_slice()),
        };
        WeightTensor::new(data, shape)
    }
}

/// What is read for a weight: half words where the header says `BF16`, else blocks where there are
/// two dimensions, else numbers; or why nothing is read.
pub open spec fn is_weight_read<T: Copy, A: Arith<T>>(
    ar: &A,
    j: Json,
    bytes: Seq<u8>,
    header_size: int,
    r: Result<StoredWeight<T>, String>,
) -> bool {
    match entry_of(j) {
        Err(e) => r matches Err(m) && m@ == e,
        Ok(entry) => if !has_room(entry, header_size, bytes.len() as int) {
            r matches Err(m) && m@ == no_room()
        } else {
            let raw = raw_of(entry, header_size, bytes);
            if entry.dtype == "BF16"@ {
                match r {
                    Ok(w) => w.shape@ == entry.shape && (w.data matches StoredData::BF16(words)
                        && holds_halves(raw, words@)),
                    Err(m) => raw.len() % 2 != 0 && m@ == no_halves(),
                }
            } else if entry.shape.len() == 2 {
                match r {
                    Ok(w) => w.shape@ == entry.shape && (w.data matches StoredData::Q8(blocks)
                        && holds_blocks(ar, raw, blocks@)),
                    Err(m) => raw.len() % BLOCK_BYTES as nat != 0 && m@ == no_blocks(),
                }
            } else {
                match r {
                    Ok(w) => w.shape@ == entry.shape && (w.data matches StoredData::F32(numbers)
                        && holds_numbers(ar, raw, numbers@)),
                    Err(m) => raw.len() % 4 != 0 && m@ == no_blocks(),
                }
            }
        },
    }
}

fn unsigned_items(values: &Vec<Value>, Ghost(all): Ghost<Seq<Json>>) -> (r: Option<Vec<usize>>)
    requires
        holds_items(values@, all),
    ensures
        match r {
            Some(numbers) => are_unsigned(all) && numbers@ == Seq::new(
                all.len(),
                |i: int| all[i]->Unsigned_0 as usize,
            ),
            None => !are_unsigned(all),
        },
{
    let mut numbers: Vec<usize> = Vec::new();
    let mut i: usize = 0;
    while i < values.len()
        invariant
            i <= values@.len(),
            holds_items(values@, all),
            numbers@.len() == i,
            forall|k: int|
                0 <= k < i ==> (#[trigger] all[k]) is Unsigned && numbers@[k]
                    == all[k]->Unsigned_0 as usize,
        decreases values@.len() - i,
    {
        assert(json_of(values@[i as int]) == all[i as int]);
        match unsigned(&values[i]) {
            Some(n) => {
                numbers.push(n as usize);
            },
            None => {
                return None;
            },
        }
        i += 1;
    }
    assert(numbers@ =~= Seq::new(all.len(), |k: int| all[k]->Unsigned_0 as usize));
    Some(numbers)
}

fn fits_tensor(shape: &Vec<usize>) -> (r: bool)
    ensures
        r == tails_fit(shape@),
{
    let n = shape.len();
    let mut state: usize = 1;
    let mut i: usize = n;
    assert(shape@.skip(n as int).len() == 0);
    while i > 0
        invariant
            i <= n,
            n == shape@.len(),
            state as nat == product(shape@.skip(i as int)),
            forall|k: int| i <= k <= n ==> product(#[trigger] shape@.skip(k)) <= usize::MAX,
        decreases i,
    {
        i = i - 1;
        proof {
            lemma_product_step(shape@, i as int);
            assert(state as nat * shape@[i as int] as nat == shape@[i as int] as nat
                * state as nat) by (nonlinear_arith);
        }
        match state.checked_mul(shape[i]) {
            Some(next) => {
                state = next;
            },
            None => {
                assert(product(shape@.skip(i as int)) > usize::MAX);
                return false;
            },
        }
    }
    true
}

fn read_halves(raw: &[u8]) -> (r: Option<Vec<u16>>)
    ensures
        match r {
            Some(words) => holds_halves(raw@, words@),
            None => raw@.len() % 2 != 0,
        },
{
    let n = raw.len() / 2;
    if raw.len() % 2 != 0 {
        return None;
    }
    let mut words: Vec<u16> = Vec::new();
    let mut i: usize = 0;
    while i < n
        invariant
            i <= n,
            2 * n == raw.len(),
            words@.len() == i,
            forall|k: int| 0 <= k < i ==> #[trigger] words@[k] == le16(raw@, 2 * k),
        decreases n - i,
    {
        words.push(read_u16(raw, 2 * i));
        i += 1;
    }
    Some(words)
}

pub(crate) fn read_block<T: Copy, A: Arith<T>>(ar: &A, raw: &[u8], at: usize) -> (r: BlockQ8_0<T>)
    requires
        at + BLOCK_BYTES <= raw@.len(),
    ensures
        holds_block(ar, raw@, at as int, r),
{
    assert(raw.len() == raw@.len());
    let d = ar.from_bits(read_u32(raw, at));
    let mut qs = [0i8;32];
    let mut j: usize = 0;
    while j < 32
        invariant
            j <= 32,
            at + BLOCK_BYTES <= raw.len(),
            forall|k: int| 0 <= k < j ==> #[trigger] qs@[k] == signed(raw@[at + 4 + k]),
        decreases 32 - j,
    {
        qs[j] = read_i8(raw, at + 4 + j);
        j += 1;
    }
    BlockQ8_0 { d, qs }
}

fn read_blocks<T: Copy, A: Arith<T>>(ar: &A, raw: &[u8]) -> (r: Option<Vec<BlockQ8_0<T>>>)
    ensures
        match r {
            Some(blocks) => holds_blocks(ar, raw@, blocks@),
            None => raw@.len() % BLOCK_BYTES as nat != 0,
        },
{
    let n = raw.len() / BLOCK_BYTES;
    if raw.len() % BLOCK_BYTES != 0 {
        return None;
    }
    let mut blocks: Vec<BlockQ8_0<T>> = Vec::new();
    let mut i: usize = 0;
    while i < n
        invariant
            i <= n,
            BLOCK_BYTES * n == raw.len(),
            blocks@.len() == i,
            forall|k: int|
                0 <= k < i ==> holds_block(ar, raw@, BLOCK_BYTES * k, #[trigger] blocks@[k]),
        decreases n - i,
    {
        blocks.push(read_block(ar, raw, BLOCK_BYTES * i));
        i += 1;
    }
    Some(blocks)
}

fn read_numbers<T: Copy, A: Arith<T>>(ar: &A, raw: &[u8]) -> (r: Option<Vec<T>>)
    ensures
        match r {
            Some(numbers) => holds_numbers(ar, raw@, numbers@),
            None => raw@.len() % 4 != 0,
        },
{
    let n = raw.len() / 4;
    if raw.len() % 4 != 0 {
        return None;
    }
    let mut numbers: Vec<T> = Vec::new();
    let mut i: usize = 0;
    while i < n
        invariant
            i <= n,
            4 * n == raw.len(),
            numbers@.len() == i,
            forall|k: int|
                0 <= k < i ==> of_bits(ar, le32(raw@, 4 * k) as u32, #[trigger] numbers@[k]),
        decreases n - i,
    {
        numbers.push(ar.from_bits(read_u32(raw, 4 * i)));
        i += 1;
    }
    Some(numbers)
}

/// Reads a weight by its name.
pub fn get_weight_matrix<T: Copy, A: Arith<T>>(
    ar: &A,
    weight_name: &str,
    structure_json: &Value,
    bytes: &[u8],
    header_size: usize,
) -> (r: Result<StoredWeight<T>, String>)
    ensures
        is_weight_read(
            ar,
            member_of(json_of(*structure_json), weight_name@),
            bytes@,
            header_size as int,
            r,
        ),
{
    let value = member(structure_json, weight_name);
    let ghost j = json_of(*value);
    let listed = member(value, "data_offsets");
    let offset = match items(listed) {
        Some(values) => match unsigned_items(values, Ghost(json_of(*listed)->Array_0)) {
            Some(offset) => offset,
            None => {
                return Err("cannot convert num to u64.".to_owned());
            },
        },
        None => {
            return Err("cannot extract token offset".to_owned());
        },
    };
    let dtype = match text_of(member(value, "dtype")) {
        Some(dtype) => dtype,
        None => {
            return Err("cannot extract dtype.".to_owned());
        },
    };
    let dims = member(value, "shape");
    let shape = match items(dims) {
        Some(values) => match unsigned_items(values, Ghost(json_of(*dims)->Array_0)) {
            Some(shape) => shape,
            None => {
                return Err("cannot convert num to u64.".to_owned());
            },
        },
        None => {
            return Err("cannot extract token shape".to_owned());
        },
    };
    let ghost entry = Entry { offsets: offset@, dtype: dtype@, shape: shape@ };
    assert(entry_of(j) == Ok::<Entry, Seq<char>>(entry));
    if offset.len() < 2 || offset[0] > offset[1] || !fits_tensor(&shape) {
        return Err("weight does not fit the file".to_owned());
    }
    let total = bytes.len();
    if total < PREFIX_BYTES || header_size > total - PREFIX_BYTES || offset[1] > total
        - PREFIX_BYTES - header_size {
        return Err("weight does not fit the file".to_owned());
    }
    let start = PREFIX_BYTES + header_size;
    let raw = slice_subrange(bytes, start + offset[0], start + offset[1]);
    assert(raw@ =~= raw_of(entry, header_size as int, bytes@));
    if same_text(dtype, "BF16") {
        match read_halves(raw) {
            Some(words) => Ok(StoredWeight { data: StoredData::BF16(words), shape }),
            None => Err("cannot convert to &[f32]".to_owned()),
        }
    } else if shape.len() == 2 {
        match read_blocks(ar, raw) {
            Some(blocks) => Ok(StoredWeight { data: StoredData::Q8(blocks), shape }),
            None => Err("cannot convert to &[q8]".to_owned()),
        }
    } else {
        match read_numbers(ar, raw) {
            Some(numbers) => Ok(StoredWeight { data: StoredData::F32(numbers), shape }),
            None => Err("cannot convert to &[q8]".to_owned()),
        }
    }
}

} // verus!
