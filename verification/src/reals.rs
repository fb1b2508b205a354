//! The operations on scalars, read over the reals: what the kernels compute where no operation
//! rounds.
use vstd::prelude::*;

use crate::arith::Arith;
use crate::tensor::WeightData;

verus! {

/// Two to the power of `e`.
pub open spec fn power_of_two(e: int) -> real
    decreases
            if e < 0 {
                -e
            } else {
                e
            },
{
    if e > 0 {
        2real * power_of_two(e - 1)
    } else if e < 0 {
        power_of_two(e + 1) / 2real
    } else {
        1real
    }
}

/// The bits are those of a number that is not infinite.
pub open spec fn is_finite(bits: u32) -> bool {
    bits / 0x80_0000 % 0x100 != 0xff
}

/// The magnitude of the number with these bits: eight of them are the exponent, the last 23 the
/// digits behind a one, which is left out but for the least exponent.
pub open spec fn magnitude(bits: u32) -> real {
    let exponent = bits as int / 0x80_0000 % 0x100;
    let digits = bits as int % 0x80_0000;
    if exponent == 0 {
        (digits as real) * power_of_two(-149)
    } else {
        ((digits + 0x80_0000) as real) * power_of_two(exponent - 150)
    }
}

/// The number with these bits, of which the first is the sign.
pub open spec fn single(bits: u32) -> real {
    if bits < 0x8000_0000 {
        magnitude(bits)
    } else {
        0real - magnitude(bits)
    }
}

pub(crate) proof fn lemma_constants()
    ensures
        single(0) == 0real,
        single(0x3f80_0000) == 1real,
        single(0xc000_0000) == 0real - 2real,
        single(0x42fe_0000) == 127real,
        single(0xc2fe_0000) == 0real - 127real,
        single(0x3f33_3333) == 11744051real / 16777216real,
        single(0x3f66_6666) == 15099494real / 16777216real,
        single(0x3586_37bd) == 8796093real / 8796093022208real,
{
    assert(power_of_two(-17) == 1real / 131072real && power_of_two(-22) == 1real / 4194304real
        && power_of_two(-23) == 1real / 8388608real && power_of_two(-24) == 1real / 16777216real
        && power_of_two(-43) == 1real / 8796093022208real) by {
        reveal_with_fuel(power_of_two, 50);
    }
    assert(0x3f80_0000u32 as int / 0x80_0000 % 0x100 == 127);
    assert(magnitude(0x3f80_0000) == 8388608real * power_of_two(-23));
    assert(magnitude(0xc000_0000) == 8388608real * power_of_two(-22));
    assert(magnitude(0x42fe_0000) == 16646144real * power_of_two(-17));
    assert(magnitude(0xc2fe_0000) == 16646144real * power_of_two(-17));
    assert(magnitude(0x3f33_3333) == 11744051real * power_of_two(-24));
    assert(magnitude(0x3f66_6666) == 15099494real * power_of_two(-24));
    assert(magnitude(0x3586_37bd) == 8796093real * power_of_two(-43));
    assert(magnitude(0) == 0real * power_of_two(-149));
}

// ---- Reading scalars ----

/// A reading of scalars as reals: the number of each, which of them are minus infinity, and the
/// functions that the operations compute.
#[verifier::reject_recursive_types(T)]
pub ghost struct Reading<T> {
    pub value: spec_fn(T) -> real,
    pub low: spec_fn(T) -> bool,
    pub exp: spec_fn(real) -> real,
    pub sin: spec_fn(real) -> real,
    pub cos: spec_fn(real) -> real,
    pub power: spec_fn(real, real) -> real,
}

impl<T> Reading<T> {
    /// The number that a scalar stands for.
    pub open spec fn of(self, x: T) -> real {
        (self.value)(x)
    }

    /// A scalar is minus infinity.
    pub open spec fn is_low(self, x: T) -> bool {
        (self.low)(x)
    }
}

/// Bits and integers stand for their numbers.
pub open spec fn reads_numbers<T: Copy, A: Arith<T>>(ar: &A, m: Reading<T>) -> bool {
    &&& forall|bits: u32, r: T| #[trigger]
        call_ensures(A::from_bits, (ar, bits), r) && is_finite(bits) ==> !m.is_low(r) && m.of(r)
            == single(bits)
    &&& forall|r: T| #[trigger] call_ensures(A::from_bits, (ar, 0xff80_0000u32), r) ==> m.is_low(r)
    &&& forall|n: i8, r: T| #[trigger]
        call_ensures(A::from_i8, (ar, n), r) ==> !m.is_low(r) && m.of(r) == (n as int) as real
    &&& forall|n: usize, r: T| #[trigger]
        call_ensures(A::from_usize, (ar, n), r) ==> !m.is_low(r) && m.of(r) == (n as int) as real
    &&& forall|n: u32, r: T| #[trigger]
        call_ensures(A::from_u32, (ar, n), r) ==> !m.is_low(r) && m.of(r) == (n as int) as real
}

/// Sums and differences are exact.
pub open spec fn reads_sums<T: Copy, A: Arith<T>>(ar: &A, m: Reading<T>) -> bool {
    &&& forall|a: T, b: T, r: T| #[trigger]
        call_ensures(A::add, (ar, a, b), r) && !m.is_low(a) && !m.is_low(b) ==> !m.is_low(r)
            && m.of(r) == m.of(a) + m.of(b)
    &&& forall|a: T, b: T, r: T| #[trigger]
        call_ensures(A::sub, (ar, a, b), r) && !m.is_low(a) && !m.is_low(b) ==> !m.is_low(r)
            && m.of(r) == m.of(a) - m.of(b)
    &&& forall|a: T, r: T| #[trigger]
        call_ensures(A::neg, (ar, a), r) && !m.is_low(a) ==> !m.is_low(r) && m.of(r) == 0real
            - m.of(a)
    &&& forall|a: T, r: T| #[trigger]
        call_ensures(A::abs, (ar, a), r) && !m.is_low(a) ==> !m.is_low(r) && m.of(r) == if m.of(a)
            < 0real {
            0real - m.of(a)
        } else {
            m.of(a)
        }
}

/// Products, quotients and roots are exact.
pub open spec fn reads_products<T: Copy, A: Arith<T>>(ar: &A, m: Reading<T>) -> bool {
    &&& forall|a: T, b: T, r: T| #[trigger]
        call_ensures(A::mul, (ar, a, b), r) && !m.is_low(a) && !m.is_low(b) ==> !m.is_low(r)
            && m.of(r) == m.of(a) * m.of(b)
    &&& forall|a: T, b: T, r: T| #[trigger]
        call_ensures(A::div, (ar, a, b), r) && !m.is_low(a) && !m.is_low(b) && m.of(b) != 0real
            ==> !m.is_low(r) && m.of(r) * m.of(b) == m.of(a)
    &&& forall|a: T, b: T, c: T, r: T| #[trigger]
        call_ensures(A::mul_add, (ar, a, b, c), r) && !m.is_low(a) && !m.is_low(b) && !m.is_low(c)
            ==> !m.is_low(r) && m.of(r) == m.of(a) * m.of(b) + m.of(c)
    &&& forall|a: T, r: T| #[trigger]
        call_ensures(A::sqrt, (ar, a), r) && !m.is_low(a) && m.of(a) >= 0real ==> !m.is_low(r)
            && m.of(r) >= 0real && m.of(r) * m.of(r) == m.of(a)
}

/// Exponentials, powers, sines and cosines are those of the reading.
pub open spec fn reads_functions<T: Copy, A: Arith<T>>(ar: &A, m: Reading<T>) -> bool {
    &&& forall|a: T, r: T| #[trigger]
        call_ensures(A::exp, (ar, a), r) && !m.is_low(a) ==> !m.is_low(r) && m.of(r) == (m.exp)(
            m.of(a),
        )
    &&& forall|a: T, r: T| #[trigger]
        call_ensures(A::sin, (ar, a), r) && !m.is_low(a) ==> !m.is_low(r) && m.of(r) == (m.sin)(
            m.of(a),
        )
    &&& forall|a: T, r: T| #[trigger]
        call_ensures(A::cos, (ar, a), r) && !m.is_low(a) ==> !m.is_low(r) && m.of(r) == (m.cos)(
            m.of(a),
        )
    &&& forall|a: T, b: T, r: T| #[trigger]
        call_ensures(A::powf, (ar, a, b), r) && !m.is_low(a) && !m.is_low(b) && m.of(a) > 0real
            ==> !m.is_low(r) && m.of(r) == (m.power)(m.of(a), m.of(b))
}

/// The functions of the reading are an exponential, powers, and a sine and cosine.
pub open spec fn are_functions<T>(m: Reading<T>) -> bool {
    &&& (m.exp)(0real) == 1real
    &&& forall|x: real| #[trigger] (m.exp)(x) > 0real
    &&& forall|x: real, y: real| #[trigger] (m.exp)(x + y) == (m.exp)(x) * (m.exp)(y)
    &&& forall|x: real, y: real| x < y ==> #[trigger] (m.exp)(x) < #[trigger] (m.exp)(y)
    &&& forall|b: real| b > 0real ==> #[trigger] (m.power)(b, 0real) == 1real
    &&& forall|b: real, x: real| b > 0real ==> #[trigger] (m.power)(b, x) > 0real
    &&& forall|b: real, x: real, y: real|
        b > 0real ==> #[trigger] (m.power)(b, x + y) == (m.power)(b, x) * (m.power)(b, y)
    &&& forall|b: real, x: real, y: real|
        b > 1real && x < y ==> #[trigger] (m.power)(b, x) < #[trigger] (m.power)(b, y)
    &&& (m.cos)(0real) == 1real
    &&& (m.sin)(0real) == 0real
    &&& forall|x: real| #[trigger] (m.cos)(x) * (m.cos)(x) + (m.sin)(x) * (m.sin)(x) == 1real
}

/// Comparisons are those of the numbers, with minus infinity below all of them.
pub open spec fn reads_order<T: Copy, A: Arith<T>>(ar: &A, m: Reading<T>) -> bool {
    &&& forall|a: T, b: T, r: bool| #[trigger]
        call_ensures(A::lt, (ar, a, b), r) ==> r == (!m.is_low(b) && (m.is_low(a) || m.of(a) < m.of(
            b,
        )))
    &&& forall|a: T, b: T, r: bool| #[trigger]
        call_ensures(A::le, (ar, a, b), r) ==> r == (m.is_low(a) || (!m.is_low(b) && m.of(a)
            <= m.of(b)))
    &&& forall|a: T, b: T, r: bool| #[trigger]
        call_ensures(A::eq, (ar, a, b), r) ==> r == (if m.is_low(a) {
            m.is_low(b)
        } else {
            !m.is_low(b) && m.of(a) == m.of(b)
        })
    &&& forall|a: T, b: T, r: T| #[trigger]
        call_ensures(A::max, (ar, a, b), r) ==> {
            &&& m.is_low(r) == (m.is_low(a) && m.is_low(b))
            &&& !m.is_low(a) ==> m.of(r) >= m.of(a)
            &&& !m.is_low(b) ==> m.of(r) >= m.of(b)
            &&& m.is_low(r) || (!m.is_low(a) && m.of(r) == m.of(a)) || (!m.is_low(b) && m.of(r)
                == m.of(b))
        }
    &&& forall|a: T, low: T, high: T, r: T| #[trigger]
        call_ensures(A::clamp, (ar, a, low, high), r) && !m.is_low(a) && !m.is_low(low) && !m.is_low(
            high,
        ) && m.of(low) <= m.of(high) ==> !m.is_low(r) && m.of(r) == if m.of(a) < m.of(low) {
            m.of(low)
        } else if m.of(a) > m.of(high) {
            m.of(high)
        } else {
            m.of(a)
        }
}

/// Rounding gives the nearest integer, and the signed byte of an integer is that integer.
pub open spec fn reads_rounding<T: Copy, A: Arith<T>>(ar: &A, m: Reading<T>) -> bool {
    &&& forall|a: T, r: T| #[trigger]
        call_ensures(A::round, (ar, a), r) && !m.is_low(a) ==> !m.is_low(r) && is_nearest(
            m.of(a),
            m.of(r),
        )
    &&& forall|a: T, r: i8| #[trigger]
        call_ensures(A::to_i8, (ar, a), r) && !m.is_low(a) ==> forall|n: int|
            -128 <= n <= 127 && m.of(a) == #[trigger] whole_number(n) ==> r == n
}

/// An integer among the reals.
pub open spec fn whole_number(n: int) -> real {
    n as real
}

/// `r` is an integer, and none is nearer to `a`.
pub open spec fn is_nearest(a: real, r: real) -> bool {
    &&& exists|n: int| r == #[trigger] whole_number(n)
    &&& a - r <= 1real / 2real
    &&& r - a <= 1real / 2real
}

/// The bits of numbers that are not negative rise with them.
pub open spec fn reads_bits<T: Copy, A: Arith<T>>(ar: &A, m: Reading<T>) -> bool {
    &&& forall|a: T, x: u32| #[trigger]
        call_ensures(A::to_bits, (ar, a), x) && !m.is_low(a) && m.of(a) >= 0real ==> x
            < 0x8000_0000
    &&& forall|a: T, b: T, x: u32, y: u32| #[trigger]
        call_ensures(A::to_bits, (ar, a), x) && #[trigger] call_ensures(A::to_bits, (ar, b), y)
            && !m.is_low(a) && !m.is_low(b) && 0real <= m.of(a) < m.of(b) ==> x < y
}

/// The operations are those on the reals.
pub open spec fn reads<T: Copy, A: Arith<T>>(ar: &A, m: Reading<T>) -> bool {
    &&& reads_numbers(ar, m)
    &&& reads_sums(ar, m)
    &&& reads_products(ar, m)
    &&& reads_functions(ar, m)
    &&& are_functions(m)
    &&& reads_order(ar, m)
    &&& reads_rounding(ar, m)
    &&& reads_bits(ar, m)
}

/// The sum of the first `n` values of `f`.
pub open spec fn sum(f: spec_fn(int) -> real, n: int) -> real
    decreases n,
{
    if n <= 0 {
        0real
    } else {
        sum(f, n - 1) + f(n - 1)
    }
}

/// The number that the stored weight at `k` stands for: the half word is the upper half of a
/// number's bits, a quantized weight is a signed byte times the scale of its block.
pub open spec fn weight_value<T>(m: Reading<T>, w: WeightData<T>, k: int) -> real {
    match w {
        WeightData::BF16(s) => single((s@[k] * 0x1_0000) as u32),
        WeightData::Q8(s) => ((s@[k / 32].qs@[k % 32] as int) as real) * m.of(s@[k / 32].d),
        WeightData::F32(s) => m.of(s@[k]),
    }
}

/// The stored weight at `k` is no infinity.
pub open spec fn is_number<T>(m: Reading<T>, w: WeightData<T>, k: int) -> bool {
    match w {
        WeightData::BF16(s) => s@[k] / 0x80 % 0x100 != 0xff,
        WeightData::Q8(s) => !m.is_low(s@[k / 32].d),
        WeightData::F32(s) => !m.is_low(s@[k]),
    }
}

/// No element is minus infinity.
pub open spec fn are_numbers<T>(m: Reading<T>, xs: Seq<T>) -> bool {
    forall|i: int| 0 <= i < xs.len() ==> !m.is_low(#[trigger] xs[i])
}

/// The `n` elements from `from` on are no minus infinity.
pub open spec fn row_is_numbers<T>(m: Reading<T>, data: Seq<T>, from: int, n: int) -> bool {
    forall|p: int| from <= p < from + n ==> !m.is_low(#[trigger] data[p])
}

/// The product of two integers.
pub open spec fn times(a: int, b: int) -> int {
    a * b
}

/// The `n` elements that lie `step` apart from `from` on are there and are no minus infinity.
pub open spec fn line_is_numbers<T>(
    m: Reading<T>,
    data: Seq<T>,
    from: int,
    step: int,
    n: int,
) -> bool {
    forall|d: int|
        0 <= d < n ==> 0 <= from + #[trigger] times(d, step) < data.len() && !m.is_low(
            data[from + times(d, step)],
        )
}

} // verus!
