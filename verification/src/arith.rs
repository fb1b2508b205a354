//! The scalar arithmetic that the kernels are written over.
//!
//! Nothing is assumed of an implementation. Each operation has a predicate below, which holds of
//! every result that the operation may return on given operands, and the contracts of the kernels
//! say by these predicates how each element they write comes from the elements they read.
use vstd::prelude::*;

verus! {

/// The bits of the single-precision numbers that the kernels use as constants.
pub const ZERO_BITS: u32 = 0x0000_0000;

/// One.
pub const ONE_BITS: u32 = 0x3f80_0000;

/// Minus two.
pub const MINUS_TWO_BITS: u32 = 0xc000_0000;

/// One millionth.
pub const MICRO_BITS: u32 = 0x3586_37bd;

/// The largest magnitude of a quantized weight, 127.
pub const Q8_MAX_BITS: u32 = 0x42fe_0000;

/// Minus 127.
pub const Q8_MIN_BITS: u32 = 0xc2fe_0000;

/// Minus infinity.
pub const NEG_INFINITY_BITS: u32 = 0xff80_0000;

/// Single-precision arithmetic on scalars of type `T`.
pub trait Arith<T: Copy> {
    /// The number with these bits.
    fn from_bits(&self, bits: u32) -> T;

    /// The bits of a number.
    fn to_bits(&self, a: T) -> u32;

    /// The number nearest to a signed byte.
    fn from_i8(&self, n: i8) -> T;

    /// The number nearest to a machine word.
    fn from_usize(&self, n: usize) -> T;

    /// The number nearest to an unsigned 32-bit integer.
    fn from_u32(&self, n: u32) -> T;

    /// The signed byte that a number is cut to.
    fn to_i8(&self, a: T) -> i8;

    fn add(&self, a: T, b: T) -> T;

    fn sub(&self, a: T, b: T) -> T;

    fn mul(&self, a: T, b: T) -> T;

    fn div(&self, a: T, b: T) -> T;

    /// `a * b + c`, rounded once.
    fn mul_add(&self, a: T, b: T, c: T) -> T;

    fn neg(&self, a: T) -> T;

    fn abs(&self, a: T) -> T;

    fn sqrt(&self, a: T) -> T;

    fn exp(&self, a: T) -> T;

    fn sin(&self, a: T) -> T;

    fn cos(&self, a: T) -> T;

    /// The nearest integer, halves away from zero.
    fn round(&self, a: T) -> T;

    fn powf(&self, base: T, exponent: T) -> T;

    fn max(&self, a: T, b: T) -> T;

    fn clamp(&self, a: T, low: T, high: T) -> T;

    /// Whether `a < b`.
    fn lt(&self, a: T, b: T) -> bool;

    /// Whether `a <= b`.
    fn le(&self, a: T, b: T) -> bool;

    /// Whether the two are equal as numbers.
    fn eq(&self, a: T, b: T) -> bool;
}

/// `r` is the number with these bits.
pub open spec fn of_bits<T: Copy, A: Arith<T>>(ar: &A, bits: u32, r: T) -> bool {
    call_ensures(A::from_bits, (ar, bits), r)
}

/// `r` are the bits of `a`.
pub open spec fn bits_of<T: Copy, A: Arith<T>>(ar: &A, a: T, r: u32) -> bool {
    call_ensures(A::to_bits, (ar, a), r)
}

/// `r` is the number nearest to a signed byte.
pub open spec fn of_i8<T: Copy, A: Arith<T>>(ar: &A, n: i8, r: T) -> bool {
    call_ensures(A::from_i8, (ar, n), r)
}

/// `r` is the number nearest to a machine word.
pub open spec fn of_usize<T: Copy, A: Arith<T>>(ar: &A, n: usize, r: T) -> bool {
    call_ensures(A::from_usize, (ar, n), r)
}

/// `r` is the number nearest to an unsigned 32-bit integer.
pub open spec fn of_u32<T: Copy, A: Arith<T>>(ar: &A, n: u32, r: T) -> bool {
    call_ensures(A::from_u32, (ar, n), r)
}

/// `r` is the signed byte that `a` is cut to.
pub open spec fn i8_of<T: Copy, A: Arith<T>>(ar: &A, a: T, r: i8) -> bool {
    call_ensures(A::to_i8, (ar, a), r)
}

/// `r` is `a + b`.
pub open spec fn is_sum<T: Copy, A: Arith<T>>(ar: &A, a: T, b: T, r: T) -> bool {
    call_ensures(A::add, (ar, a, b), r)
}

/// `r` is `a - b`.
pub open spec fn is_difference<T: Copy, A: Arith<T>>(ar: &A, a: T, b: T, r: T) -> bool {
    call_ensures(A::sub, (ar, a, b), r)
}

/// `r` is `a * b`.
pub open spec fn is_product<T: Copy, A: Arith<T>>(ar: &A, a: T, b: T, r: T) -> bool {
    call_ensures(A::mul, (ar, a, b), r)
}

/// `r` is `a / b`.
pub open spec fn is_quotient<T: Copy, A: Arith<T>>(ar: &A, a: T, b: T, r: T) -> bool {
    call_ensures(A::div, (ar, a, b), r)
}

/// `r` is `a * b + c`, rounded once.
pub open spec fn is_mul_add<T: Copy, A: Arith<T>>(ar: &A, a: T, b: T, c: T, r: T) -> bool {
    call_ensures(A::mul_add, (ar, a, b, c), r)
}

/// `r` is `-a`.
pub open spec fn is_neg<T: Copy, A: Arith<T>>(ar: &A, a: T, r: T) -> bool {
    call_ensures(A::neg, (ar, a), r)
}

/// `r` is the magnitude of `a`.
pub open spec fn is_abs<T: Copy, A: Arith<T>>(ar: &A, a: T, r: T) -> bool {
    call_ensures(A::abs, (ar, a), r)
}

/// `r` is the square root of `a`.
pub open spec fn is_sqrt<T: Copy, A: Arith<T>>(ar: &A, a: T, r: T) -> bool {
    call_ensures(A::sqrt, (ar, a), r)
}

/// `r` is the exponential of `a`.
pub open spec fn is_exp<T: Copy, A: Arith<T>>(ar: &A, a: T, r: T) -> bool {
    call_ensures(A::exp, (ar, a), r)
}

/// `r` is the sine of `a`.
pub open spec fn is_sin<T: Copy, A: Arith<T>>(ar: &A, a: T, r: T) -> bool {
    call_ensures(A::sin, (ar, a), r)
}

/// `r` is the cosine of `a`.
pub open spec fn is_cos<T: Copy, A: Arith<T>>(ar: &A, a: T, r: T) -> bool {
    call_ensures(A::cos, (ar, a), r)
}

/// `r` is `a`, rounded to an integer.
pub open spec fn is_round<T: Copy, A: Arith<T>>(ar: &A, a: T, r: T) -> bool {
    call_ensures(A::round, (ar, a), r)
}

/// `r` is `base` to the power of `exponent`.
pub open spec fn is_power<T: Copy, A: Arith<T>>(ar: &A, base: T, exponent: T, r: T) -> bool {
    call_ensures(A::powf, (ar, base, exponent), r)
}

/// `r` is the greater of `a` and `b`.
pub open spec fn is_max<T: Copy, A: Arith<T>>(ar: &A, a: T, b: T, r: T) -> bool {
    call_ensures(A::max, (ar, a, b), r)
}

/// `r` is `a`, cut to the range from `low` to `high`.
pub open spec fn is_clamp<T: Copy, A: Arith<T>>(ar: &A, a: T, low: T, high: T, r: T) -> bool {
    call_ensures(A::clamp, (ar, a, low, high), r)
}

/// `r` is whether `a` is less than `b`.
pub open spec fn says_lt<T: Copy, A: Arith<T>>(ar: &A, a: T, b: T, r: bool) -> bool {
    call_ensures(A::lt, (ar, a, b), r)
}

/// `r` is whether `a` is not greater than `b`.
pub open spec fn says_le<T: Copy, A: Arith<T>>(ar: &A, a: T, b: T, r: bool) -> bool {
    call_ensures(A::le, (ar, a, b), r)
}

/// `r` is whether `a` equals `b`.
pub open spec fn says_eq<T: Copy, A: Arith<T>>(ar: &A, a: T, b: T, r: bool) -> bool {
    call_ensures(A::eq, (ar, a, b), r)
}

/// The single-precision bits of a number stored in the upper half of a word.
pub open spec fn bf16_bits(w: u16) -> u32 {
    (w as u32) << 16
}

/// `r` is the number that a stored half word stands for.
pub open spec fn of_bf16<T: Copy, A: Arith<T>>(ar: &A, w: u16, r: T) -> bool {
    of_bits(ar, bf16_bits(w), r)
}

/// `r` is the number that a quantized weight with scale `d` stands for.
pub open spec fn of_q8<T: Copy, A: Arith<T>>(ar: &A, q: i8, d: T, r: T) -> bool {
    exists|n: T| of_i8(ar, q, n) && #[trigger] is_product(ar, n, d, r)
}

/// The bits of the number that a stored half word stands for: the half word is the upper half.
pub fn bf16_u16_to_f32_bits(w: u16) -> (r: u32)
    ensures
        r == bf16_bits(w),
        r == w * 0x1_0000,
{
    assert((w as u32) << 16 == w * 0x1_0000) by (bit_vector);
    (w as u32) << 16
}

/// The number that a stored half word stands for.
pub fn bf16_u16_to_f32<T: Copy, A: Arith<T>>(ar: &A, w: u16) -> (r: T)
    ensures
        of_bf16(ar, w, r),
{
    ar.from_bits((w as u32) << 16)
}

/// The number that a quantized weight with scale `d` stands for.
pub(crate) fn q8_to_f32<T: Copy, A: Arith<T>>(ar: &A, q: i8, d: T) -> (r: T)
    ensures
        of_q8(ar, q, d, r),
{
    let n = ar.from_i8(q);
    let r = ar.mul(n, d);
    assert(of_i8(ar, q, n));
    assert(is_product(ar, n, d, r));
    r
}

} // verus!
