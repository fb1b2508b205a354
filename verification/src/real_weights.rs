//! Where the numbers of a weight stand in a file.
use vstd::prelude::*;

use crate::arith::Arith;
use crate::json::{member_of, Json};
use crate::real_quantize::{bits_at, signed_number};
use crate::reals::{is_finite, reads, single, Reading};
use crate::weights::{entry_of, holds_block, is_weight_read, raw_of, StoredWeight};

verus! {

/// The first of the two numbers that say where the bytes of a weight stand.
pub open spec fn starts_at(j: Json, begin: u64) -> bool {
    member_of(j, "data_offsets"@) matches Json::Array(items) && items.len() > 0 && items[0]
        == Json::Unsigned(begin) && begin <= usize::MAX
}

proof fn lemma_raw<T: Copy, A: Arith<T>>(
    ar: &A,
    j: Json,
    bytes: Seq<u8>,
    header_size: int,
    w: StoredWeight<T>,
    begin: u64,
)
    requires
        is_weight_read(ar, j, bytes, header_size, Ok::<StoredWeight<T>, String>(w)),
        starts_at(j, begin),
        0 <= header_size,
    ensures
        entry_of(j) is Ok,
        ({
            let raw = raw_of(entry_of(j)->Ok_0, header_size, bytes);
            forall|p: int|
                0 <= p < raw.len() ==> #[trigger] raw[p] == bytes[8 + header_size + begin + p]
        }),
{
    let entry = entry_of(j)->Ok_0;
    assert(entry.offsets[0] == begin);
}

/// A weight of form `BF16` is read from half words: word `k` is the two bytes that stand `2 * k`
/// behind the start of the weight, which itself stands behind the eight bytes of the size, the
/// header, and the weights in front of it. The lower byte comes first.
pub proof fn law_half_words_are_read<T: Copy, A: Arith<T>>(
    ar: &A,
    j: Json,
    bytes: Seq<u8>,
    header_size: int,
    w: StoredWeight<T>,
    begin: u64,
    k: int,
)
    requires
        is_weight_read(ar, j, bytes, header_size, Ok::<StoredWeight<T>, String>(w)),
        starts_at(j, begin),
        0 <= header_size,
        member_of(j, "dtype"@) == Json::Text("BF16"@),
    ensures
        w.data is BF16,
        0 <= k < w.data->BF16_0@.len() ==> w.data->BF16_0@[k] == bytes[8 + header_size + begin + 2
            * k] + 256 * bytes[8 + header_size + begin + 2 * k + 1],
{
    lemma_raw(ar, j, bytes, header_size, w, begin);
}

/// A matrix of another form is read from blocks of 36 bytes: the bits of the scale, the lowest byte
/// first, and 32 signed weights.
pub proof fn law_blocks_are_read<T: Copy, A: Arith<T>>(
    ar: &A,
    m: Reading<T>,
    j: Json,
    bytes: Seq<u8>,
    header_size: int,
    w: StoredWeight<T>,
    begin: u64,
    dtype: Seq<char>,
    shape: Seq<Json>,
    k: int,
    i: int,
)
    requires
        reads(ar, m),
        is_weight_read(ar, j, bytes, header_size, Ok::<StoredWeight<T>, String>(w)),
        starts_at(j, begin),
        0 <= header_size,
        member_of(j, "dtype"@) == Json::Text(dtype),
        dtype != "BF16"@,
        member_of(j, "shape"@) == Json::Array(shape),
        shape.len() == 2,
        0 <= i < 32,
    ensures
        w.data is Q8,
        0 <= k < w.data->Q8_0@.len() ==> {
            let at = 8 + header_size + begin + 36 * k;
            let block = w.data->Q8_0@[k];
            &&& is_finite(bits_at(bytes, at)) ==> !m.is_low(block.d) && m.of(block.d) == single(
                bits_at(bytes, at),
            )
            &&& block.qs@[i] == signed_number(bytes[at + 4 + i])
        },
{
    lemma_raw(ar, j, bytes, header_size, w, begin);
    let raw = raw_of(entry_of(j)->Ok_0, header_size, bytes);
    assert(w.data is Q8);
    let blocks = w.data->Q8_0@;
    if 0 <= k < blocks.len() {
        let at = 8 + header_size + begin + 36 * k;
        assert(holds_block(ar, raw, 36 * k, blocks[k]));
        assert(raw[36 * k] == bytes[at] && raw[36 * k + 1] == bytes[at + 1] && raw[36 * k + 2]
            == bytes[at + 2] && raw[36 * k + 3] == bytes[at + 3]);
        assert(raw[36 * k + 4 + i] == bytes[at + 4 + i]);
    }
}

/// Any other weight is read from numbers of four bytes, the lowest first.
pub proof fn law_numbers_are_read<T: Copy, A: Arith<T>>(
    ar: &A,
    m: Reading<T>,
    j: Json,
    bytes: Seq<u8>,
    header_size: int,
    w: StoredWeight<T>,
    begin: u64,
    dtype: Seq<char>,
    shape: Seq<Json>,
    k: int,
)
    requires
        reads(ar, m),
        is_weight_read(ar, j, bytes, header_size, Ok::<StoredWeight<T>, String>(w)),
        starts_at(j, begin),
        0 <= header_size,
        member_of(j, "dtype"@) == Json::Text(dtype),
        dtype != "BF16"@,
        member_of(j, "shape"@) == Json::Array(shape),
        shape.len() != 2,
    ensures
        w.data is F32,
        0 <= k < w.data->F32_0@.len() ==> {
            let at = 8 + header_size + begin + 4 * k;
            let x = w.data->F32_0@[k];
            is_finite(bits_at(bytes, at)) ==> !m.is_low(x) && m.of(x) == single(
                bits_at(bytes, at),
            )
        },
{
    lemma_raw(ar, j, bytes, header_size, w, begin);
    let raw = raw_of(entry_of(j)->Ok_0, header_size, bytes);
    let numbers = w.data->F32_0@;
    if 0 <= k < numbers.len() {
        let at = 8 + header_size + begin + 4 * k;
        assert(raw[4 * k] == bytes[at] && raw[4 * k + 1] == bytes[at + 1] && raw[4 * k + 2]
            == bytes[at + 2] && raw[4 * k + 3] == bytes[at + 3]);
        assert(call_ensures(A::from_bits, (ar, bits_at(bytes, at)), numbers[k]));
    }
}

} // verus!
