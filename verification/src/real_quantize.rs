//! What quantizing keeps of a matrix, over the reals.
use vstd::prelude::*;

use crate::arith::{
    bits_of, is_abs, is_quotient, of_bits, says_eq, says_lt, Arith, ONE_BITS, Q8_MAX_BITS,
    ZERO_BITS,
};
use crate::bytes::{bytes32, le16, unsigned};
use crate::quantize::{
    block_bytes_of, block_steps, is_block_bytes, is_block_of, is_block_written, is_body,
    is_matrix_written, is_peak, is_peak_step, is_quantized, law_number_reads_back,
    quantizing_steps, source_block, source_of, widened, written_block, TensorInfo,
};
use crate::real_dot::{half_value, is_finite_half, lemma_half};
use crate::reals::{lemma_constants, reads, whole_number, Reading};
use crate::tensor::BlockQ8_0;

verus! {

/// The magnitude of a number.
pub open spec fn size_of_number(x: real) -> real {
    if x < 0real {
        0real - x
    } else {
        x
    }
}

/// Half word `i` of these bytes, of which the first is the lower.
pub open spec fn half_word(source: Seq<u8>, i: int) -> u16 {
    (source[2 * i] + 256 * source[2 * i + 1]) as u16
}

/// Each half word of a block is a number.
pub open spec fn is_finite_block(source: Seq<u8>) -> bool {
    forall|i: int| 0 <= i < 32 ==> is_finite_half(#[trigger] half_word(source, i))
}

proof fn lemma_peak<T: Copy, A: Arith<T>>(ar: &A, m: Reading<T>, values: Seq<T>, n: int, r: T)
    requires
        reads(ar, m),
        0 <= n <= values.len(),
        is_peak(ar, values, n, r),
        forall|i: int| 0 <= i < n ==> !m.is_low(#[trigger] values[i]),
    ensures
        !m.is_low(r),
        m.of(r) >= 0real,
        forall|i: int| 0 <= i < n ==> size_of_number(m.of(#[trigger] values[i])) <= m.of(r),
        n > 0 ==> exists|i: int|
            0 <= i < n && size_of_number(m.of(#[trigger] values[i])) == m.of(r),
    decreases n,
{
    lemma_constants();
    if n > 0 {
        let v = values[n - 1];
        let p = choose|p: T|
            is_peak(ar, values, n - 1, p) && #[trigger] is_peak_step(ar, v, p, r);
        lemma_peak(ar, m, values, n - 1, p);
        let (a, more) = choose|a: T, more: bool| #[trigger]
            is_abs(ar, v, a) && #[trigger] says_lt(ar, p, a, more) && r == (if more {
                a
            } else {
                p
            });
        assert(m.of(a) == size_of_number(m.of(v)));
        if more {
            assert(size_of_number(m.of(values[n - 1])) == m.of(r));
        } else if n == 1 {
            assert(of_bits(ar, ZERO_BITS, p));
            assert(size_of_number(m.of(values[0])) == m.of(r));
        } else {
            let i = choose|i: int|
                0 <= i < n - 1 && size_of_number(m.of(#[trigger] values[i])) == m.of(p);
            assert(size_of_number(m.of(values[i])) == m.of(r));
        }
    }
}

/// A number in steps of the scale.
proof fn lemma_quantized<T: Copy, A: Arith<T>>(
    ar: &A,
    m: Reading<T>,
    v: T,
    d: T,
    inverse: T,
    q: i8,
)
    requires
        reads(ar, m),
        is_quantized(ar, v, inverse, q),
        !m.is_low(v),
        !m.is_low(d),
        !m.is_low(inverse),
        m.of(d) >= 0real,
        size_of_number(m.of(v)) <= 127real * m.of(d),
        m.of(d) > 0real ==> m.of(inverse) * m.of(d) == 1real,
        m.of(d) == 0real ==> m.of(inverse) == 0real,
    ensures
        -127 <= q <= 127,
        2real * size_of_number(m.of(v) - whole_number(q as int) * m.of(d)) <= m.of(d),
{
    let (p, r, low, high, c) = choose|p: T, r: T, low: T, high: T, c: T| #[trigger]
        quantizing_steps(ar, v, inverse, p, r, low, high, c, q);
    lemma_constants();
    let x = m.of(v);
    let s = m.of(d);
    let y = m.of(p);
    let z = m.of(inverse);
    assert(y == x * z);
    assert(0real - 127real <= y <= 127real) by {
        if s > 0real {
            assert(y * s == x) by (nonlinear_arith)
                requires
                    y == x * z,
                    z * s == 1real,
            ;
            assert(0real - 127real <= y <= 127real) by (nonlinear_arith)
                requires
                    y * s == x,
                    s > 0real,
                    0real - 127real * s <= x <= 127real * s,
            ;
        } else {
            assert(y == 0real) by (nonlinear_arith)
                requires
                    y == x * z,
                    z == 0real,
            ;
        }
    }
    let n = choose|n: int| m.of(r) == #[trigger] whole_number(n);
    assert(-127 <= n <= 127) by {
        assert(0real - 255real / 2real <= n as real <= 255real / 2real);
    }
    assert(m.of(c) == whole_number(n));
    assert(q == n);
    let e = y - (n as real);
    let w = whole_number(q as int);
    if s > 0real {
        assert(y * s == x) by (nonlinear_arith)
            requires
                y == x * z,
                z * s == 1real,
        ;
        assert(x - w * s == e * s) by (nonlinear_arith)
            requires
                y * s == x,
                e == y - w,
        ;
        assert(2real * (e * s) <= s && 2real * (0real - e * s) <= s) by (nonlinear_arith)
            requires
                s > 0real,
                e <= 1real / 2real,
                0real - e <= 1real / 2real,
        ;
    } else {
        assert(x == 0real);
        assert(w * s == 0real) by (nonlinear_arith)
            requires
                s == 0real,
        ;
    }
}

/// A block keeps its numbers to half a step: its scale times 127 is their greatest magnitude, each
/// of its weights lies between -127 and 127, and no number is further than half the scale from its
/// weight times the scale.
pub proof fn law_block_keeps_numbers<T: Copy, A: Arith<T>>(
    ar: &A,
    m: Reading<T>,
    source: Seq<u8>,
    block: BlockQ8_0<T>,
    i: int,
)
    requires
        reads(ar, m),
        is_block_of(ar, source, block),
        is_finite_block(source),
        0 <= i < 32,
    ensures
        !m.is_low(block.d),
        m.of(block.d) >= 0real,
        exists|k: int|
            0 <= k < 32 && size_of_number(half_value(#[trigger] half_word(source, k))) == 127real
                * m.of(block.d),
        size_of_number(half_value(half_word(source, i))) <= 127real * m.of(block.d),
        -127 <= block.qs@[i] <= 127,
        2real * size_of_number(
            half_value(half_word(source, i)) - whole_number(block.qs@[i] as int) * m.of(block.d),
        ) <= m.of(block.d),
{
    let (values, peak, inverse) = choose|values: Seq<T>, peak: T, inverse: T| #[trigger]
        block_steps(ar, source, values, peak, inverse, block);
    lemma_constants();
    assert forall|k: int| 0 <= k < 32 implies !m.is_low(#[trigger] values[k]) && m.of(values[k])
        == half_value(half_word(source, k)) by {
        assert(is_finite_half(half_word(source, k)));
        lemma_half(ar, m, half_word(source, k), values[k]);
    }
    lemma_peak(ar, m, values, 32, peak);
    let top = choose|c: T| of_bits(ar, Q8_MAX_BITS, c) && #[trigger] is_quotient(
        ar,
        peak,
        c,
        block.d,
    );
    let s = m.of(block.d);
    assert(s * 127real == m.of(peak));
    let k = choose|k: int|
        0 <= k < 32 && size_of_number(m.of(#[trigger] values[k])) == m.of(peak);
    assert(size_of_number(half_value(half_word(source, k))) == 127real * s);
    let (z, flat) = choose|z: T, flat: bool|
        of_bits(ar, ZERO_BITS, z) && #[trigger] says_eq(ar, block.d, z, flat) && if flat {
            of_bits(ar, ZERO_BITS, inverse)
        } else {
            exists|one: T|
                of_bits(ar, ONE_BITS, one) && #[trigger] is_quotient(ar, one, block.d, inverse)
        };
    assert(is_quantized(ar, values[i], inverse, block.qs@[i]));
    lemma_quantized(ar, m, values[i], block.d, inverse, block.qs@[i]);
}

/// The number of a byte among the signed ones.
pub open spec fn signed_number(b: u8) -> int {
    if b < 128 {
        b as int
    } else {
        b - 256
    }
}

/// The bits that four bytes hold, the lowest first.
pub open spec fn bits_at(bytes: Seq<u8>, at: int) -> u32 {
    (bytes[at] + 0x100 * bytes[at + 1] + 0x1_0000 * bytes[at + 2] + 0x100_0000 * bytes[at
        + 3]) as u32
}

proof fn lemma_block_bytes(bits: u32, qs: Seq<i8>, i: int)
    requires
        qs.len() == 32,
        0 <= i < 32,
    ensures
        block_bytes_of(bits, qs).len() == 36,
        bits_at(block_bytes_of(bits, qs), 0) == bits,
        signed_number(block_bytes_of(bits, qs)[4 + i]) == qs[i],
{
    let bytes = block_bytes_of(bits, qs);
    let four = bytes32(bits);
    assert(bytes[0] == four[0] && bytes[1] == four[1] && bytes[2] == four[2] && bytes[3]
        == four[3]);
    assert(four[0] + 0x100 * four[1] + 0x1_0000 * four[2] + 0x100_0000 * four[3] == bits);
    assert(bytes[4 + i] == unsigned(qs[i]));
}

/// The number `x` lies no further than half the scale from the weight times the scale.
pub open spec fn is_kept(x: real, q: int, scale: real) -> bool {
    &&& -127 <= q <= 127
    &&& size_of_number(x) <= 127real * scale
    &&& 2real * size_of_number(x - whole_number(q) * scale) <= scale
}

/// A quantized matrix keeps its numbers: every 64 bytes of half words become 36 bytes, of which the
/// first four are the bits of a scale, the lowest first, and the others the weights in their
/// order. No number is further than half the scale from its weight times the scale.
pub proof fn law_matrix_keeps_numbers<T: Copy, A: Arith<T>>(
    ar: &A,
    m: Reading<T>,
    source: Seq<u8>,
    out: Seq<u8>,
    k: int,
    i: int,
)
    requires
        reads(ar, m),
        is_matrix_written(ar, source, out),
        0 <= k,
        64 * (k + 1) <= source.len(),
        0 <= i < 32,
        forall|n: int|
            32 * k <= n < 32 * k + 32 ==> is_finite_half(#[trigger] half_word(source, n)),
    ensures
        out.len() == 36 * (source.len() as int / 64),
        exists|d: T|
            {
                &&& #[trigger] call_ensures(A::to_bits, (ar, d), bits_at(out, 36 * k))
                &&& !m.is_low(d)
                &&& is_kept(
                    half_value(half_word(source, 32 * k + i)),
                    signed_number(out[36 * k + 4 + i]),
                    m.of(d),
                )
            },
{
    let part = source_block(source, k);
    let bytes = written_block(out, k);
    assert(is_block_written::<T, A>(ar, part, bytes));
    let block = choose|block: BlockQ8_0<T>| #[trigger]
        is_block_of(ar, part, block) && is_block_bytes(ar, block, bytes);
    let bits = choose|bits: u32| #[trigger]
        bits_of(ar, block.d, bits) && bytes == block_bytes_of(bits, block.qs@);
    assert forall|n: int| 0 <= n < 32 implies is_finite_half(#[trigger] half_word(part, n)) by {
        assert(half_word(part, n) == half_word(source, 32 * k + n));
    }
    assert(half_word(part, i) == half_word(source, 32 * k + i));
    assert(is_kept(
        half_value(half_word(part, i)),
        block.qs@[i] as int,
        m.of(block.d),
    ) && !m.is_low(block.d)) by {
        law_block_keeps_numbers(ar, m, part, block, i);
    }
    lemma_block_bytes(bits, block.qs@, i);
    assert(bits_at(out, 36 * k) == bits_at(bytes, 0));
    assert(out[36 * k + 4 + i] == bytes[4 + i]);
    assert(call_ensures(A::to_bits, (ar, block.d), bits_at(out, 36 * k)));
}

/// A tensor that is not quantized keeps its numbers whole: each half word becomes four bytes, two
/// zeros and then its own.
pub proof fn law_widening_keeps_bytes(source: Seq<u8>, i: int)
    requires
        0 <= i < source.len() as int / 2,
    ensures
        widened(source).len() == 4 * (source.len() as int / 2),
        widened(source)[4 * i] == 0,
        widened(source)[4 * i + 1] == 0,
        widened(source)[4 * i + 2] == source[2 * i],
        widened(source)[4 * i + 3] == source[2 * i + 1],
{
    law_number_reads_back(source, i);
    let w = le16(source, 2 * i) as u16;
    assert((w as u32) << 16 == w * 0x1_0000) by (bit_vector);
    assert(w == source[2 * i] + 0x100 * source[2 * i + 1]);
}

/// The body of a matrix in a quantized file comes from its own bytes in the source, which stand
/// behind the size, the header and the tensors in front of it.
pub proof fn law_body_of_a_matrix<T: Copy, A: Arith<T>>(
    ar: &A,
    m: Reading<T>,
    bytes: Seq<u8>,
    header_size: int,
    info: TensorInfo,
    body: Seq<u8>,
    k: int,
    i: int,
)
    requires
        reads(ar, m),
        is_body(ar, bytes, header_size, info, body),
        info.shape@.len() == 2,
        0 <= header_size,
        0 <= k,
        64 * (k + 1) <= info.data_offsets@[1] - info.data_offsets@[0],
        0 <= i < 32,
        forall|n: int|
            32 * k <= n < 32 * k + 32 ==> is_finite_half(
                #[trigger] word_from(bytes, 8 + header_size + info.data_offsets@[0], n),
            ),
    ensures
        exists|d: T|
            {
                &&& #[trigger] call_ensures(A::to_bits, (ar, d), bits_at(body, 36 * k))
                &&& !m.is_low(d)
                &&& is_kept(
                    half_value(
                        word_from(
                            bytes,
                            8 + header_size + info.data_offsets@[0],
                            32 * k + i,
                        ),
                    ),
                    signed_number(body[36 * k + 4 + i]),
                    m.of(d),
                )
            },
{
    let source = source_of(info, header_size, bytes);
    let start = 8 + header_size + info.data_offsets@[0];
    assert forall|n: int| 32 * k <= n < 32 * k + 32 implies half_word(source, n) == word_from(
        bytes,
        start,
        n,
    ) && is_finite_half(#[trigger] half_word(source, n)) by {
        assert(source[2 * n] == bytes[start + 2 * n]);
        assert(source[2 * n + 1] == bytes[start + 2 * n + 1]);
        assert(is_finite_half(word_from(bytes, start, n)));
    }
    law_matrix_keeps_numbers(ar, m, source, body, k, i);
    assert(half_word(source, 32 * k + i) == word_from(bytes, start, 32 * k + i));
}

/// Half word `n` behind `start`, of which the lower byte comes first.
pub open spec fn word_from(bytes: Seq<u8>, start: int, n: int) -> u16 {
    (bytes[start + 2 * n] + 256 * bytes[start + 2 * n + 1]) as u16
}

/// The body of any other tensor holds its bytes in the source, two of them in every four.
pub proof fn law_body_of_numbers<T: Copy, A: Arith<T>>(
    ar: &A,
    bytes: Seq<u8>,
    header_size: int,
    info: TensorInfo,
    body: Seq<u8>,
    n: int,
)
    requires
        is_body(ar, bytes, header_size, info, body),
        info.shape@.len() != 2,
        0 <= header_size,
        0 <= n < (info.data_offsets@[1] - info.data_offsets@[0]) / 2,
    ensures
        ({
            let start = 8 + header_size + info.data_offsets@[0];
            &&& body[4 * n] == 0
            &&& body[4 * n + 1] == 0
            &&& body[4 * n + 2] == bytes[start + 2 * n]
            &&& body[4 * n + 3] == bytes[start + 2 * n + 1]
        }),
{
    let source = source_of(info, header_size, bytes);
    law_widening_keeps_bytes(source, n);
}

} // verus!
