//! Root-mean-square normalisation of the rows of a tensor.
use vstd::prelude::*;
use vstd::slice::slice_subrange;

use crate::arith::{
    bf16_u16_to_f32, is_mul_add, is_product, is_quotient, is_sqrt, is_sum, of_bf16, of_bits, of_q8,
    of_usize, q8_to_f32, Arith, ONE_BITS, ZERO_BITS,
};
use crate::dot::{fold_lanes, is_fold, lesser, whole};
use crate::tensor::{Tensor, WeightData, WeightTensor};

verus! {

/// `r` is what lane `l` of eight holds after the squares of `n` groups of eight elements.
pub open spec fn square_lane<T: Copy, A: Arith<T>>(ar: &A, x: Seq<T>, l: int, n: int, r: T) -> bool
    decreases n,
{
    if n <= 0 {
        of_bits(ar, ZERO_BITS, r)
    } else {
        exists|p: T|
            square_lane(ar, x, l, n - 1, p) && #[trigger] is_mul_add(
                ar,
                x[8 * (n - 1) + l],
                x[8 * (n - 1) + l],
                p,
                r,
            )
    }
}

/// `r` is `p + x * x`.
pub open spec fn square_step<T: Copy, A: Arith<T>>(ar: &A, p: T, x: T, r: T) -> bool {
    exists|q: T| is_product(ar, x, x, q) && #[trigger] is_sum(ar, p, q, r)
}

/// `r` is `base` with the squares of the first `n` elements added one by one.
pub open spec fn square_tail<T: Copy, A: Arith<T>>(ar: &A, x: Seq<T>, base: T, n: int, r: T) -> bool
    decreases n,
{
    if n <= 0 {
        r == base
    } else {
        exists|p: T|
            square_tail(ar, x, base, n - 1, p) && #[trigger] square_step(ar, p, x[n - 1], r)
    }
}

/// The lanes and the folded sum from which the sum of squares comes.
pub open spec fn square_sum_steps<T: Copy, A: Arith<T>>(
    ar: &A,
    x: Seq<T>,
    lanes: Seq<T>,
    base: T,
    r: T,
) -> bool {
    &&& lanes.len() == 8
    &&& forall|l: int|
        0 <= l < 8 ==> square_lane(ar, x, l, x.len() as int / 8, #[trigger] lanes[l])
    &&& is_fold(ar, lanes, base)
    &&& square_tail(ar, x.skip(whole(x.len() as int, 8)), base, x.len() as int % 8, r)
}

/// `r` is the sum of the squares of a row.
pub open spec fn is_square_sum<T: Copy, A: Arith<T>>(ar: &A, x: Seq<T>, r: T) -> bool {
    exists|lanes: Seq<T>, base: T| square_sum_steps(ar, x, lanes, base, r)
}

/// The intermediate numbers of `1 / sqrt(acc / n + epsilon)`.
pub open spec fn inverse_rms_steps<T: Copy, A: Arith<T>>(
    ar: &A,
    x: Seq<T>,
    epsilon: T,
    acc: T,
    n: T,
    mean: T,
    shifted: T,
    root: T,
    one: T,
    r: T,
) -> bool {
    &&& is_square_sum(ar, x, acc)
    &&& of_usize(ar, x.len() as usize, n)
    &&& is_quotient(ar, acc, n, mean)
    &&& is_sum(ar, mean, epsilon, shifted)
    &&& is_sqrt(ar, shifted, root)
    &&& of_bits(ar, ONE_BITS, one)
    &&& is_quotient(ar, one, root, r)
}

/// `r` is the inverse of the root mean square of a row, with `epsilon` under the root.
pub open spec fn is_inverse_rms<T: Copy, A: Arith<T>>(ar: &A, x: Seq<T>, epsilon: T, r: T) -> bool {
    exists|acc: T, n: T, mean: T, shifted: T, root: T, one: T|
        inverse_rms_steps(ar, x, epsilon, acc, n, mean, shifted, root, one, r)
}

/// How many weights are stored: half words, numbers, or blocks of 32.
pub open spec fn stored_len<T>(w: WeightData<T>) -> nat {
    match w {
        WeightData::BF16(s) => s@.len(),
        WeightData::Q8(s) => s@.len(),
        WeightData::F32(s) => s@.len(),
    }
}

/// `r` is the number that the weight at `k` stands for.
pub open spec fn is_weight<T: Copy, A: Arith<T>>(ar: &A, w: WeightData<T>, k: int, r: T) -> bool {
    match w {
        WeightData::BF16(s) => of_bf16(ar, s@[k], r),
        WeightData::Q8(s) => of_q8(ar, s@[k / 32].qs@[k % 32], s@[k / 32].d, r),
        WeightData::F32(s) => r == s@[k],
    }
}

/// `r` is `(x * inverse) * v`.
pub open spec fn is_scaled<T: Copy, A: Arith<T>>(ar: &A, x: T, inverse: T, v: T, r: T) -> bool {
    exists|p: T| is_product(ar, x, inverse, p) && #[trigger] is_product(ar, p, v, r)
}

/// `r` is `v * (x * inverse)`.
pub open spec fn is_scaled_back<T: Copy, A: Arith<T>>(
    ar: &A,
    x: T,
    inverse: T,
    v: T,
    r: T,
) -> bool {
    exists|p: T| is_product(ar, x, inverse, p) && #[trigger] is_product(ar, v, p, r)
}

/// `r` is the element at `k` of a normalised row.
///
/// Rows and stored weights are taken in groups, of eight elements, or of 32 where the weights are
/// quantized. An element of a group that both have is scaled by the weight at its place. Behind
/// the last whole group of the row, an element is scaled by the weight that is as far behind the
/// last whole group of the weights; with quantized weights it is zero. So is an element of a group
/// for which there are no weights.
pub open spec fn is_normed<T: Copy, A: Arith<T>>(
    ar: &A,
    x: Seq<T>,
    w: WeightData<T>,
    inverse: T,
    k: int,
    r: T,
) -> bool {
    let h = x.len() as int;
    let n = stored_len(w) as int;
    if w is Q8 {
        if k < 32 * lesser(h / 32, n) {
            exists|v: T| is_weight(ar, w, k, v) && #[trigger] is_scaled(ar, x[k], inverse, v, r)
        } else {
            of_bits(ar, ZERO_BITS, r)
        }
    } else if k < 8 * lesser(h / 8, n / 8) {
        exists|v: T| is_weight(ar, w, k, v) && #[trigger] is_scaled_back(ar, x[k], inverse, v, r)
    } else if k < whole(h, 8) {
        of_bits(ar, ZERO_BITS, r)
    } else {
        exists|v: T|
            is_weight(ar, w, whole(n, 8) + (k - whole(h, 8)), v) && #[trigger] is_scaled(
                ar,
                x[k],
                inverse,
                v,
                r,
            )
    }
}

/// Every element of `out` is that of the normalised row, for one inverse root mean square.
pub open spec fn normed_by<T: Copy, A: Arith<T>>(
    ar: &A,
    x: Seq<T>,
    w: WeightData<T>,
    inverse: T,
    out: Seq<T>,
) -> bool {
    &&& out.len() == x.len()
    &&& forall|k: int| 0 <= k < x.len() ==> is_normed(ar, x, w, inverse, k, #[trigger] out[k])
}

/// `out` is the normalised row `x`.
pub open spec fn is_normed_row<T: Copy, A: Arith<T>>(
    ar: &A,
    x: Seq<T>,
    w: WeightData<T>,
    epsilon: T,
    out: Seq<T>,
) -> bool {
    exists|inverse: T|
        is_inverse_rms(ar, x, epsilon, inverse) && #[trigger] normed_by(ar, x, w, inverse, out)
}

/// Row `i` of a buffer of rows of `h` elements.
pub open spec fn row_at<T>(s: Seq<T>, i: int, h: int) -> Seq<T> {
    s.subrange(i * h, (i + 1) * h)
}

/// `out` holds the normalised rows of `data`, and zeros behind the last whole row.
pub open spec fn is_normed_rows<T: Copy, A: Arith<T>>(
    ar: &A,
    data: Seq<T>,
    w: WeightData<T>,
    h: int,
    epsilon: T,
    out: Seq<T>,
) -> bool {
    &&& out.len() == data.len()
    &&& forall|i: int|
        0 <= i < data.len() as int / h ==> is_normed_row(
            ar,
            row_at(data, i, h),
            w,
            epsilon,
            #[trigger] row_at(out, i, h),
        )
    &&& forall|k: int|
        whole(data.len() as int, h) <= k < data.len() ==> of_bits(
            ar,
            ZERO_BITS,
            #[trigger] out[k],
        )
}

/// `out` is `input` with its rows of `hidden_dim` elements normalised and scaled.
pub open spec fn is_rmsnorm<T: Copy, A: Arith<T>>(
    ar: &A,
    input: Tensor<T>,
    weight: WeightTensor<T>,
    hidden_dim: usize,
    epsilon: T,
    out: Tensor<T>,
) -> bool {
    &&& out.shape@ == input.shape@
    &&& out.strides@ == input.strides@
    &&& is_normed_rows(ar, input.data@, weight.data, hidden_dim as int, epsilon, out.data@)
}

/// Rows of `h` elements can be scaled: quantized weights always, others where enough of them
/// stand behind their last whole group of eight.
pub open spec fn can_scale<T>(w: WeightData<T>, h: int) -> bool {
    w is Q8 || h % 8 <= stored_len(w) % 8
}

pub(crate) proof fn lemma_row_bounds(i: int, rows: int, h: int)
    requires
        0 <= i < rows,
        0 <= h,
    ensures
        0 <= i * h,
        (i + 1) * h == i * h + h,
        (i + 1) * h <= rows * h,
{
    assert(0 <= i * h && (i + 1) * h == i * h + h && (i + 1) * h <= rows * h) by (nonlinear_arith)
        requires
            0 <= i < rows,
            0 <= h,
    ;
}

fn square_sum<T: Copy, A: Arith<T>>(ar: &A, x: &[T]) -> (r: T)
    ensures
        is_square_sum(ar, x@, r),
{
    let groups = x.len() / 8;
    let zero = ar.from_bits(ZERO_BITS);
    let mut lanes: [T; 8] = [zero; 8];
    let mut k: usize = 0;
    assert(forall|l: int| 0 <= l < 8 ==> square_lane(ar, x@, l, 0, #[trigger] lanes@[l]));
    while k < groups * 8
        invariant
            groups * 8 <= x.len(),
            k <= groups * 8,
            forall|l: int|
                0 <= l < k % 8 ==> square_lane(ar, x@, l, k as int / 8 + 1, #[trigger] lanes@[l]),
            forall|l: int|
                k % 8 <= l < 8 ==> square_lane(ar, x@, l, k as int / 8, #[trigger] lanes@[l]),
        decreases groups * 8 - k,
    {
        let l = k % 8;
        let p = lanes[l];
        let r = ar.mul_add(x[k], x[k], p);
        proof {
            let n = k as int / 8 + 1;
            assert(8 * (n - 1) + l == k);
            assert(is_mul_add(ar, x@[8 * (n - 1) + l], x@[8 * (n - 1) + l], p, r));
            assert(square_lane(ar, x@, l as int, n, r));
        }
        lanes[l] = r;
        k += 1;
    }
    let base = fold_lanes(ar, &lanes);
    let from = groups * 8;
    let n = x.len() % 8;
    let ghost tail = x@.skip(from as int);
    let mut sum = base;
    let mut i: usize = 0;
    while i < n
        invariant
            i <= n,
            from + n == x.len(),
            tail == x@.skip(from as int),
            square_tail(ar, tail, base, i as int, sum),
        decreases n - i,
    {
        let v = x[from + i];
        let q = ar.mul(v, v);
        let next = ar.add(sum, q);
        proof {
            let k = i + 1;
            assert(is_product(ar, tail[k - 1], tail[k - 1], q));
            assert(is_sum(ar, sum, q, next));
            assert(square_step(ar, sum, tail[k - 1], next));
            assert(square_tail(ar, tail, base, k, next));
        }
        sum = next;
        i += 1;
    }
    assert(square_sum_steps(ar, x@, lanes@, base, sum));
    sum
}

fn inverse_rms<T: Copy, A: Arith<T>>(ar: &A, x: &[T], epsilon: T) -> (r: T)
    ensures
        is_inverse_rms(ar, x@, epsilon, r),
{
    let acc = square_sum(ar, x);
    let n = ar.from_usize(x.len());
    let mean = ar.div(acc, n);
    let shifted = ar.add(mean, epsilon);
    let root = ar.sqrt(shifted);
    let one = ar.from_bits(ONE_BITS);
    let r = ar.div(one, root);
    assert(inverse_rms_steps(ar, x@, epsilon, acc, n, mean, shifted, root, one, r));
    r
}

fn weight_at<T: Copy, A: Arith<T>>(ar: &A, w: &WeightData<T>, k: usize) -> (r: T)
    requires
        w is Q8 ==> k < 32 * stored_len(*w),
        !(w is Q8) ==> k < stored_len(*w),
    ensures
        is_weight(ar, *w, k as int, r),
{
    match w {
        WeightData::BF16(s) => bf16_u16_to_f32(ar, s[k]),
        WeightData::Q8(s) => q8_to_f32(ar, s[k / 32].qs[k % 32], s[k / 32].d),
        WeightData::F32(s) => s[k],
    }
}

pub(crate) fn weight_len<T>(w: &WeightData<T>) -> (r: usize)
    ensures
        r == stored_len(*w),
{
    match w {
        WeightData::BF16(s) => s.len(),
        WeightData::Q8(s) => s.len(),
        WeightData::F32(s) => s.len(),
    }
}

fn normed_element<T: Copy, A: Arith<T>>(
    ar: &A,
    x: &[T],
    w: &WeightData<T>,
    inverse: T,
    k: usize,
) -> (r: T)
    requires
        k < x@.len(),
        can_scale(*w, x@.len() as int),
    ensures
        is_normed(ar, x@, *w, inverse, k as int, r),
{
    let h = x.len();
    let n = weight_len(w);
    let quantized = match w {
        WeightData::Q8(_) => true,
        _ => false,
    };
    if quantized {
        if k / 32 < h / 32 && k / 32 < n {
            let v = weight_at(ar, w, k);
            let p = ar.mul(x[k], inverse);
            let r = ar.mul(p, v);
            assert(is_product(ar, x@[k as int], inverse, p));
            assert(is_product(ar, p, v, r));
            assert(is_scaled(ar, x@[k as int], inverse, v, r));
            r
        } else {
            ar.from_bits(ZERO_BITS)
        }
    } else if k / 8 < h / 8 && k / 8 < n / 8 {
        let v = weight_at(ar, w, k);
        let p = ar.mul(x[k], inverse);
        let r = ar.mul(v, p);
        assert(is_product(ar, x@[k as int], inverse, p));
        assert(is_product(ar, v, p, r));
        assert(is_scaled_back(ar, x@[k as int], inverse, v, r));
        r
    } else if k / 8 < h / 8 {
        ar.from_bits(ZERO_BITS)
    } else {
        let v = weight_at(ar, w, n / 8 * 8 + (k - h / 8 * 8));
        let p = ar.mul(x[k], inverse);
        let r = ar.mul(p, v);
        assert(is_product(ar, x@[k as int], inverse, p));
        assert(is_product(ar, p, v, r));
        assert(is_scaled(ar, x@[k as int], inverse, v, r));
        r
    }
}

fn normed_row<T: Copy, A: Arith<T>>(ar: &A, x: &[T], w: &WeightData<T>, epsilon: T) -> (out: Vec<T>)
    requires
        can_scale(*w, x@.len() as int),
    ensures
        is_normed_row(ar, x@, *w, epsilon, out@),
{
    let inverse = inverse_rms(ar, x, epsilon);
    let mut out: Vec<T> = Vec::new();
    let mut k: usize = 0;
    while k < x.len()
        invariant
            k <= x.len(),
            out@.len() == k,
            can_scale(*w, x@.len() as int),
            forall|j: int| 0 <= j < k ==> is_normed(ar, x@, *w, inverse, j, #[trigger] out@[j]),
        decreases x.len() - k,
    {
        let r = normed_element(ar, x, w, inverse, k);
        out.push(r);
        k += 1;
    }
    assert(normed_by(ar, x@, *w, inverse, out@));
    out
}

fn normed_rows<T: Copy, A: Arith<T>>(
    ar: &A,
    data: &Vec<T>,
    w: &WeightData<T>,
    hidden_dim: usize,
    epsilon: T,
) -> (out: Vec<T>)
    requires
        hidden_dim > 0,
        hidden_dim <= data@.len() ==> can_scale(*w, hidden_dim as int),
    ensures
        is_normed_rows(ar, data@, *w, hidden_dim as int, epsilon, out@),
{
    let rows = data.len() / hidden_dim;
    let ghost h = hidden_dim as int;
    let mut out: Vec<T> = Vec::new();
    let mut i: usize = 0;
    proof {
        assert(rows * h <= data@.len() && (rows > 0 ==> h <= data@.len())) by (nonlinear_arith)
            requires
                h > 0,
                rows == data@.len() as int / h,
        ;
        assert(0 * h == 0);
    }
    while i < rows
        invariant
            i <= rows,
            h == hidden_dim as int,
            h > 0,
            rows == data@.len() as int / h,
            rows * h <= data.len(),
            rows > 0 ==> can_scale(*w, h),
            out@.len() == i * h,
            forall|j: int|
                0 <= j < i ==> is_normed_row(
                    ar,
                    row_at(data@, j, h),
                    *w,
                    epsilon,
                    #[trigger] row_at(out@, j, h),
                ),
        decreases rows - i,
    {
        proof {
            lemma_row_bounds(i as int, rows as int, h);
        }
        let x = slice_subrange(data.as_slice(), i * hidden_dim, i * hidden_dim + hidden_dim);
        let mut row = normed_row(ar, x, w, epsilon);
        let ghost before = out@;
        let ghost added = row@;
        out.append(&mut row);
        proof {
            assert(row_at(data@, i as int, h) =~= x@);
            assert(row_at(out@, i as int, h) =~= added);
            assert forall|j: int| 0 <= j < i implies is_normed_row(
                ar,
                row_at(data@, j, h),
                *w,
                epsilon,
                #[trigger] row_at(out@, j, h),
            ) by {
                lemma_row_bounds(j, i as int, h);
                assert(row_at(out@, j, h) =~= row_at(before, j, h));
            }
        }
        i += 1;
    }
    let ghost full = out@;
    while out.len() < data.len()
        invariant
            h == hidden_dim as int,
            h > 0,
            rows == data@.len() as int / h,
            full.len() == rows * h,
            full.len() <= out@.len() <= data@.len(),
            out@.take(full.len() as int) =~= full,
            forall|k: int| full.len() <= k < out@.len() ==> of_bits(ar, ZERO_BITS, #[trigger] out@[k]),
        decreases data@.len() - out@.len(),
    {
        let ghost before = out@;
        let z = ar.from_bits(ZERO_BITS);
        out.push(z);
        assert(out@.take(full.len() as int) =~= before.take(full.len() as int));
    }
    proof {
        assert forall|j: int| 0 <= j < rows implies is_normed_row(
            ar,
            row_at(data@, j, h),
            *w,
            epsilon,
            #[trigger] row_at(out@, j, h),
        ) by {
            lemma_row_bounds(j, rows as int, h);
            assert(row_at(out@, j, h) =~= row_at(full, j, h)) by {
                assert forall|k: int| j * h <= k < (j + 1) * h implies out@[k] == full[k] by {
                    assert(out@.take(full.len() as int)[k] == full[k]);
                }
            }
        }
    }
    out
}

fn normed<T: Copy, A: Arith<T>>(
    ar: &A,
    input: &Tensor<T>,
    weight: &WeightTensor<T>,
    hidden_dim: usize,
    epsilon: T,
) -> (r: Tensor<T>)
    requires
        hidden_dim > 0,
        hidden_dim <= input.data@.len() ==> can_scale(weight.data, hidden_dim as int),
    ensures
        r.shape@ == input.shape@,
        r.strides@ == input.strides@,
        is_normed_rows(ar, input.data@, weight.data, hidden_dim as int, epsilon, r.data@),
{
    let data = normed_rows(ar, &input.data, &weight.data, hidden_dim, epsilon);
    let shape = input.shape.clone();
    let strides = input.strides.clone();
    assert(shape@ =~= input.shape@);
    assert(strides@ =~= input.strides@);
    Tensor { data, shape, strides }
}

/// Normalises the rows of `hidden_dim` elements of a tensor and scales them by the weights, in
/// whatever form these are stored.
pub fn rmsnorm<T: Copy, A: Arith<T>>(
    ar: &A,
    input: &Tensor<T>,
    weight: &WeightTensor<T>,
    hidden_dim: usize,
    epsilon: T,
) -> (r: Result<Tensor<T>, String>)
    requires
        hidden_dim > 0,
        hidden_dim <= input.data@.len() ==> can_scale(weight.data, hidden_dim as int),
    ensures
        r matches Ok(t) && is_rmsnorm(ar, *input, *weight, hidden_dim, epsilon, t),
{
    match &weight.data {
        WeightData::BF16(_) => rmsnorm_bf16(ar, input, weight, hidden_dim, epsilon),
        WeightData::Q8(_) => rmsnorm_q8(ar, input, weight, hidden_dim, epsilon),
        WeightData::F32(_) => rmsnorm_f32(ar, input, weight, hidden_dim, epsilon),
    }
}

/// Normalises the rows of a tensor and scales them by weights stored as numbers.
pub fn rmsnorm_f32<T: Copy, A: Arith<T>>(
    ar: &A,
    input: &Tensor<T>,
    weight: &WeightTensor<T>,
    hidden_dim: usize,
    epsilon: T,
) -> (r: Result<Tensor<T>, String>)
    requires
        hidden_dim > 0,
        hidden_dim <= input.data@.len() ==> weight.data is F32 && can_scale(
            weight.data,
            hidden_dim as int,
        ),
    ensures
        r matches Ok(t) && is_rmsnorm(ar, *input, *weight, hidden_dim, epsilon, t),
{
    Ok(normed(ar, input, weight, hidden_dim, epsilon))
}

/// Normalises the rows of a tensor and scales them by weights stored as half words.
pub fn rmsnorm_bf16<T: Copy, A: Arith<T>>(
    ar: &A,
    input: &Tensor<T>,
    weight: &WeightTensor<T>,
    hidden_dim: usize,
    epsilon: T,
) -> (r: Result<Tensor<T>, String>)
    requires
        hidden_dim > 0,
        hidden_dim <= input.data@.len() ==> weight.data is BF16 && can_scale(
            weight.data,
            hidden_dim as int,
        ),
    ensures
        r matches Ok(t) && is_rmsnorm(ar, *input, *weight, hidden_dim, epsilon, t),
{
    Ok(normed(ar, input, weight, hidden_dim, epsilon))
}

/// Normalises the rows of a tensor and scales them by blocks of quantized weights.
pub fn rmsnorm_q8<T: Copy, A: Arith<T>>(
    ar: &A,
    input: &Tensor<T>,
    weight: &WeightTensor<T>,
    hidden_dim: usize,
    epsilon: T,
) -> (r: Result<Tensor<T>, String>)
    requires
        hidden_dim > 0,
        weight.data is Q8,
    ensures
        r matches Ok(t) && is_rmsnorm(ar, *input, *weight, hidden_dim, epsilon, t),
{
    Ok(normed(ar, input, weight, hidden_dim, epsilon))
}

} // verus!
