//! What the norm computes over the reals.
use vstd::arithmetic::div_mod::lemma_fundamental_div_mod;
use vstd::prelude::*;

use crate::arith::{is_mul_add, is_product, is_sum, of_bits, Arith, ZERO_BITS};
use crate::dot::whole;
use crate::norm::{
    inverse_rms_steps, is_inverse_rms, is_normed, is_normed_row, is_rmsnorm, is_scaled,
    is_scaled_back, is_square_sum, is_weight, normed_by, row_at, square_lane,
    square_step, square_sum_steps, square_tail,
};
use crate::real_dot::{lemma_fold, lemma_half, lemma_q8, lemma_sum_same, lemma_sum_splits};
use crate::reals::{
    are_numbers, is_number, lemma_constants, reads, row_is_numbers, sum, weight_value, Reading,
};
use crate::tensor::{Tensor, WeightData, WeightTensor};

verus! {

/// The squares of every eighth element from `l` on, `n` of them.
spec fn eighths(f: spec_fn(int) -> real, l: int, n: int) -> real
    decreases n,
{
    if n <= 0 {
        0real
    } else {
        eighths(f, l, n - 1) + f(8 * (n - 1) + l)
    }
}

proof fn lemma_eighths(f: spec_fn(int) -> real, n: int)
    requires
        0 <= n,
    ensures
        eighths(f, 0, n) + eighths(f, 1, n) + eighths(f, 2, n) + eighths(f, 3, n) + eighths(
            f,
            4,
            n,
        ) + eighths(f, 5, n) + eighths(f, 6, n) + eighths(f, 7, n) == sum(f, 8 * n),
    decreases n,
{
    if n > 0 {
        lemma_eighths(f, n - 1);
        reveal_with_fuel(sum, 9);
    }
}

proof fn lemma_square_lane<T: Copy, A: Arith<T>>(
    ar: &A,
    m: Reading<T>,
    x: Seq<T>,
    f: spec_fn(int) -> real,
    l: int,
    n: int,
    r: T,
)
    requires
        reads(ar, m),
        are_numbers(m, x),
        f == (|i: int| m.of(x[i]) * m.of(x[i])),
        0 <= l < 8,
        8 * n <= x.len(),
        square_lane(ar, x, l, n, r),
    ensures
        !m.is_low(r),
        m.of(r) == eighths(f, l, n),
    decreases n,
{
    if n > 0 {
        let at = 8 * (n - 1) + l;
        let p = choose|p: T|
            square_lane(ar, x, l, n - 1, p) && #[trigger] is_mul_add(ar, x[at], x[at], p, r);
        lemma_square_lane(ar, m, x, f, l, n - 1, p);
        assert(!m.is_low(x[at]));
        assert(f(at) == m.of(x[at]) * m.of(x[at]));
    } else {
        lemma_constants();
    }
}

proof fn lemma_square_tail<T: Copy, A: Arith<T>>(
    ar: &A,
    m: Reading<T>,
    x: Seq<T>,
    f: spec_fn(int) -> real,
    base: T,
    n: int,
    r: T,
)
    requires
        reads(ar, m),
        are_numbers(m, x),
        !m.is_low(base),
        f == (|i: int| m.of(x[i]) * m.of(x[i])),
        n <= x.len(),
        square_tail(ar, x, base, n, r),
    ensures
        !m.is_low(r),
        m.of(r) == m.of(base) + sum(f, n),
    decreases n,
{
    if n > 0 {
        let at = n - 1;
        let p = choose|p: T|
            square_tail(ar, x, base, n - 1, p) && #[trigger] square_step(ar, p, x[at], r);
        lemma_square_tail(ar, m, x, f, base, n - 1, p);
        let q = choose|q: T| is_product(ar, x[at], x[at], q) && #[trigger] is_sum(ar, p, q, r);
        assert(!m.is_low(x[at]));
        assert(f(at) == m.of(x[at]) * m.of(x[at]));
    }
}

/// The sum of squares is the sum of the squares.
proof fn lemma_square_sum<T: Copy, A: Arith<T>>(ar: &A, m: Reading<T>, x: Seq<T>, r: T)
    requires
        reads(ar, m),
        are_numbers(m, x),
        is_square_sum(ar, x, r),
    ensures
        !m.is_low(r),
        m.of(r) == sum(|i: int| m.of(x[i]) * m.of(x[i]), x.len() as int),
{
    let f = |i: int| m.of(x[i]) * m.of(x[i]);
    let (lanes, base) = choose|lanes: Seq<T>, base: T| square_sum_steps(ar, x, lanes, base, r);
    let n = x.len() as int / 8;
    assert forall|l: int| 0 <= l < 8 implies !m.is_low(#[trigger] lanes[l]) && m.of(lanes[l])
        == eighths(f, l, n) by {
        lemma_square_lane(ar, m, x, f, l, n, lanes[l]);
    }
    lemma_fold(ar, m, lanes, base);
    lemma_eighths(f, n);
    let from = whole(x.len() as int, 8);
    let xt = x.skip(from);
    let g = |i: int| m.of(xt[i]) * m.of(xt[i]);
    assert(are_numbers(m, xt)) by {
        assert forall|i: int| 0 <= i < xt.len() implies !m.is_low(#[trigger] xt[i]) by {
            assert(xt[i] == x[from + i]);
        }
    }
    lemma_square_tail(ar, m, xt, g, base, x.len() as int % 8, r);
    lemma_sum_splits(f, g, from, x.len() as int % 8);
}

/// The mean of the squares of a row, with a term added.
pub open spec fn mean_square<T>(m: Reading<T>, data: Seq<T>, from: int, h: int, epsilon: T) -> real {
    sum(|d: int| m.of(data[from + d]) * m.of(data[from + d]), h) / (h as real) + m.of(epsilon)
}

proof fn lemma_inverse<T: Copy, A: Arith<T>>(
    ar: &A,
    m: Reading<T>,
    x: Seq<T>,
    epsilon: T,
    r: T,
    mean: real,
)
    requires
        reads(ar, m),
        are_numbers(m, x),
        !m.is_low(epsilon),
        0 < x.len() <= usize::MAX,
        is_inverse_rms(ar, x, epsilon, r),
        mean == sum(|i: int| m.of(x[i]) * m.of(x[i]), x.len() as int) / ((x.len() as int) as real)
            + m.of(epsilon),
        mean > 0real,
    ensures
        !m.is_low(r),
        m.of(r) > 0real,
        m.of(r) * m.of(r) * mean == 1real,
{
    let (acc, n, quotient, shifted, root, one) = choose|
        acc: T,
        n: T,
        mean: T,
        shifted: T,
        root: T,
        one: T,
    | inverse_rms_steps(ar, x, epsilon, acc, n, mean, shifted, root, one, r);
    lemma_square_sum(ar, m, x, acc);
    lemma_constants();
    let h = (x.len() as int) as real;
    assert(m.of(n) == h);
    assert(h > 0real);
    let s = m.of(acc);
    let q = m.of(quotient);
    assert(q == s / h) by (nonlinear_arith)
        requires
            q * h == s,
            h > 0real,
    ;
    assert(m.of(shifted) == mean);
    let t = m.of(root);
    assert(t != 0real) by (nonlinear_arith)
        requires
            t * t == mean,
            mean > 0real,
    ;
    let v = m.of(r);
    assert(v * t == 1real);
    assert(v > 0real && v * v * mean == 1real) by (nonlinear_arith)
        requires
            v * t == 1real,
            t * t == mean,
            t >= 0real,
            mean > 0real,
    ;
}

/// `out` holds, from `from` on, the `h` elements of a row, each times its weight and a factor that
/// is positive and whose square is the inverse of the mean of the squares with the added term.
pub open spec fn is_normalised<T>(
    m: Reading<T>,
    data: Seq<T>,
    w: WeightData<T>,
    epsilon: T,
    from: int,
    h: int,
    factor: real,
    out: Seq<T>,
) -> bool {
    &&& factor > 0real
    &&& factor * factor * mean_square(m, data, from, h, epsilon) == 1real
    &&& forall|k: int|
        from <= k < from + h ==> !m.is_low(#[trigger] out[k]) && m.of(out[k]) == m.of(data[k])
            * weight_value(m, w, k - from) * factor
}

/// There are as many weights as a row has elements, all of them numbers.
pub open spec fn holds_row<T>(m: Reading<T>, w: WeightData<T>, h: int) -> bool {
    &&& match w {
        WeightData::BF16(s) => s@.len() == h,
        WeightData::F32(s) => s@.len() == h,
        WeightData::Q8(s) => 32 * s@.len() == h,
    }
    &&& forall|k: int| 0 <= k < h ==> #[trigger] is_number(m, w, k)
}

/// The norm multiplies each row with its weights and one factor, by which the mean of the squares
/// of the row, with the added term, becomes one.
pub proof fn law_norm<T: Copy, A: Arith<T>>(
    ar: &A,
    m: Reading<T>,
    input: Tensor<T>,
    weight: WeightTensor<T>,
    h: usize,
    epsilon: T,
    out: Tensor<T>,
    i: int,
)
    requires
        reads(ar, m),
        is_rmsnorm(ar, input, weight, h, epsilon, out),
        row_is_numbers(m, input.data@, i * h, h as int),
        !m.is_low(epsilon),
        holds_row(m, weight.data, h as int),
        0 < h,
        0 <= i,
        (i + 1) * h <= input.data@.len(),
        mean_square(m, input.data@, i * h, h as int, epsilon) > 0real,
    ensures
        exists|factor: real| #[trigger]
            is_normalised(
                m,
                input.data@,
                weight.data,
                epsilon,
                i * h,
                h as int,
                factor,
                out.data@,
            ),
        out.shape@ == input.shape@,
        out.data@.len() == input.data@.len(),
{
    let n = h as int;
    let data = input.data@;
    assert(0 <= i * n && i * n + n == (i + 1) * n) by (nonlinear_arith)
        requires
            0 <= i,
            0 < n,
    ;
    assert(i < data.len() as int / n) by (nonlinear_arith)
        requires
            (i + 1) * n <= data.len(),
            0 < n,
    ;
    let row = row_at(data, i, n);
    let res = row_at(out.data@, i, n);
    assert(is_normed_row(ar, row, weight.data, epsilon, res));
    let inverse = choose|inverse: T|
        is_inverse_rms(ar, row, epsilon, inverse) && #[trigger] normed_by(
            ar,
            row,
            weight.data,
            inverse,
            res,
        );
    assert(row.len() == n);
    assert(are_numbers(m, row)) by {
        assert forall|d: int| 0 <= d < row.len() implies !m.is_low(#[trigger] row[d]) by {
            assert(row[d] == data[i * n + d]);
        }
    }
    let f = |d: int| m.of(row[d]) * m.of(row[d]);
    let g = |d: int| m.of(data[i * n + d]) * m.of(data[i * n + d]);
    assert forall|d: int| 0 <= d < n implies #[trigger] f(d) == g(d) by {
        assert(row[d] == data[i * n + d]);
    }
    lemma_sum_same(f, g, n);
    let mean = mean_square(m, data, i * n, n, epsilon);
    lemma_inverse(ar, m, row, epsilon, inverse, mean);
    let v = m.of(inverse);
    assert forall|p: int| i * n <= p < i * n + n implies !m.is_low(#[trigger] out.data@[p]) && m.of(
        out.data@[p],
    ) == m.of(data[p]) * weight_value(m, weight.data, p - i * n) * v by {
        let k = p - i * n;
        assert(is_number(m, weight.data, k));
        assert(is_normed(ar, row, weight.data, inverse, k, res[k]));
        assert(res[k] == out.data@[p]);
        assert(row[k] == data[p]);
        lemma_element(ar, m, row, weight.data, inverse, k, res[k]);
        let x = m.of(row[k]);
        let w = weight_value(m, weight.data, k);
        assert(x * v * w == x * w * v) by (nonlinear_arith);
    }
    assert(is_normalised(m, data, weight.data, epsilon, i * n, n, v, out.data@));
}

proof fn lemma_element<T: Copy, A: Arith<T>>(
    ar: &A,
    m: Reading<T>,
    x: Seq<T>,
    w: WeightData<T>,
    inverse: T,
    k: int,
    r: T,
)
    requires
        reads(ar, m),
        are_numbers(m, x),
        !m.is_low(inverse),
        is_number(m, w, k),
        match w {
            WeightData::BF16(s) => s@.len() == x.len(),
            WeightData::F32(s) => s@.len() == x.len(),
            WeightData::Q8(s) => 32 * s@.len() == x.len(),
        },
        0 <= k < x.len(),
        is_normed(ar, x, w, inverse, k, r),
    ensures
        !m.is_low(r),
        m.of(r) == m.of(x[k]) * m.of(inverse) * weight_value(m, w, k),
{
    assert(!m.is_low(x[k]));
    let h = x.len() as int;
    let back = !(w is Q8) && k < 8 * (h / 8);
    let v = if back {
        choose|v: T| is_weight(ar, w, k, v) && #[trigger] is_scaled_back(ar, x[k], inverse, v, r)
    } else {
        choose|v: T| is_weight(ar, w, k, v) && #[trigger] is_scaled(ar, x[k], inverse, v, r)
    };
    match w {
        WeightData::BF16(s) => lemma_half(ar, m, s@[k], v),
        WeightData::Q8(s) => lemma_q8(ar, m, s@[k / 32].qs@[k % 32], s@[k / 32].d, v),
        WeightData::F32(_) => {},
    }
    let a = m.of(x[k]) * m.of(inverse);
    let b = m.of(v);
    assert(a * b == b * a) by (nonlinear_arith);
    if back {
        let p = choose|p: T| is_product(ar, x[k], inverse, p) && #[trigger] is_product(ar, v, p, r);
    } else {
        let p = choose|p: T| is_product(ar, x[k], inverse, p) && #[trigger] is_product(ar, p, v, r);
    }
}

/// Behind the last whole row a norm leaves zeros.
pub proof fn law_part_of_a_row_becomes_zero<T: Copy, A: Arith<T>>(
    ar: &A,
    m: Reading<T>,
    input: Tensor<T>,
    weight: WeightTensor<T>,
    h: usize,
    epsilon: T,
    out: Tensor<T>,
    p: int,
)
    requires
        reads(ar, m),
        is_rmsnorm(ar, input, weight, h, epsilon, out),
        0 < h,
        input.data@.len() - input.data@.len() as int % h as int <= p < input.data@.len(),
    ensures
        !m.is_low(out.data@[p]),
        m.of(out.data@[p]) == 0real,
{
    let n = input.data@.len() as int;
    let size = h as int;
    lemma_constants();
    lemma_fundamental_div_mod(n, size);
    assert(n / size * size == size * (n / size)) by (nonlinear_arith);
    assert(whole(n, size) <= p);
    assert(of_bits(ar, ZERO_BITS, out.data@[p]));
}

} // verus!
