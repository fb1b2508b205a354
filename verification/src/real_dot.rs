//! What the products with weights compute over the reals: sums of products.
use vstd::prelude::*;

use crate::arith::{bf16_bits, is_mul_add, is_product, is_sum, of_bf16, of_i8, of_q8, Arith};
use crate::dot::{
    bf16_lane, bf16_lane_step, bf16_tail, bf16_tail_step, dot_bf16_steps, dot_q8_steps,
    fold_steps, is_dot_bf16, is_dot_q8, is_fold, is_sum_of_four, q8_lane, q8_lane_step, whole,
};
use crate::linear::{
    is_bias, is_embedding, is_linear_proj, is_projected, is_token_embedding, is_weight_dot, slot,
};
use crate::norm::{is_weight, lemma_row_bounds, row_at};
use crate::project::{
    is_mlp_cell, is_mlp_mul, is_out_proj, is_out_single, is_row_dot, law_out_projections_agree,
    row_len, row_start, run,
};
use crate::reals::{
    are_numbers, is_finite, is_number, lemma_constants, reads, row_is_numbers, single, sum,
    weight_value, Reading,
};
use crate::tensor::{BlockQ8_0, Tensor, WeightData, WeightTensor};

verus! {

// ---- Sums ----

/// The sum of every `step`-th value of `f` from `l` on, `n` of them.
spec fn strided(f: spec_fn(int) -> real, step: int, l: int, n: int) -> real
    decreases n,
{
    if n <= 0 {
        0real
    } else {
        strided(f, step, l, n - 1) + f(step * (n - 1) + l)
    }
}

/// The sum over the lanes `0` to `k`.
spec fn lane_sum(f: spec_fn(int) -> real, step: int, n: int, k: int) -> real
    decreases k,
{
    if k <= 0 {
        0real
    } else {
        lane_sum(f, step, n, k - 1) + strided(f, step, k - 1, n)
    }
}

proof fn lemma_lane_sum_step(f: spec_fn(int) -> real, step: int, n: int, k: int)
    requires
        0 < n,
        0 <= k <= step,
    ensures
        lane_sum(f, step, n, k) == lane_sum(f, step, n - 1, k) + sum(f, step * (n - 1) + k) - sum(
            f,
            step * (n - 1),
        ),
    decreases k,
{
    if k > 0 {
        lemma_lane_sum_step(f, step, n, k - 1);
        assert(0 <= step * (n - 1)) by (nonlinear_arith)
            requires
                0 < n,
                0 < step,
        ;
    }
}

proof fn lemma_lane_sum(f: spec_fn(int) -> real, step: int, n: int)
    requires
        0 < step,
        0 <= n,
    ensures
        lane_sum(f, step, n, step) == sum(f, step * n),
    decreases n,
{
    if n == 0 {
        lemma_lane_sum_empty(f, step, step);
    } else {
        lemma_lane_sum(f, step, n - 1);
        lemma_lane_sum_step(f, step, n, step);
        assert(step * (n - 1) + step == step * n) by (nonlinear_arith);
    }
}

proof fn lemma_lane_sum_empty(f: spec_fn(int) -> real, step: int, k: int)
    ensures
        lane_sum(f, step, 0, k) == 0real,
    decreases k,
{
    if k > 0 {
        lemma_lane_sum_empty(f, step, k - 1);
    }
}

/// The sum of the first `a + b` values is that of the first `a` and that of the `b` behind them.
pub(crate) proof fn lemma_sum_splits(
    f: spec_fn(int) -> real,
    g: spec_fn(int) -> real,
    a: int,
    b: int,
)
    requires
        0 <= a,
        0 <= b,
        forall|i: int| 0 <= i < b ==> #[trigger] g(i) == f(a + i),
    ensures
        sum(f, a + b) == sum(f, a) + sum(g, b),
    decreases b,
{
    if b > 0 {
        lemma_sum_splits(f, g, a, b - 1);
        assert(g(b - 1) == f(a + (b - 1)));
    }
}

/// Sums of the same values are the same.
pub(crate) proof fn lemma_sum_same(f: spec_fn(int) -> real, g: spec_fn(int) -> real, n: int)
    requires
        forall|i: int| 0 <= i < n ==> #[trigger] f(i) == g(i),
    ensures
        sum(f, n) == sum(g, n),
    decreases n,
{
    if n > 0 {
        lemma_sum_same(f, g, n - 1);
        assert(f(n - 1) == g(n - 1));
    }
}

pub(crate) proof fn lemma_fold<T: Copy, A: Arith<T>>(ar: &A, m: Reading<T>, v: Seq<T>, r: T)
    requires
        reads(ar, m),
        is_fold(ar, v, r),
        forall|l: int| 0 <= l < 8 ==> !m.is_low(#[trigger] v[l]),
    ensures
        !m.is_low(r),
        m.of(r) == m.of(v[0]) + m.of(v[1]) + m.of(v[2]) + m.of(v[3]) + m.of(v[4]) + m.of(v[5])
            + m.of(v[6]) + m.of(v[7]),
{
    let (q, h) = choose|q: Seq<T>, h: Seq<T>| fold_steps(ar, v, q, h, r);
    assert(!m.is_low(v[0]) && !m.is_low(v[1]) && !m.is_low(v[2]) && !m.is_low(v[3]) && !m.is_low(
        v[4],
    ) && !m.is_low(v[5]) && !m.is_low(v[6]) && !m.is_low(v[7]));
    assert(is_sum(ar, v[0], v[4], q[0]) && is_sum(ar, v[1], v[5], q[1]) && is_sum(
        ar,
        v[2],
        v[6],
        q[2],
    ) && is_sum(ar, v[3], v[7], q[3]));
    assert(is_sum(ar, q[0], q[2], h[0]) && is_sum(ar, q[1], q[3], h[1]));
}

// ---- Half words ----

/// The half word is no infinity.
pub open spec fn is_finite_half(w: u16) -> bool {
    w / 0x80 % 0x100 != 0xff
}

/// The number that a half word stands for: it is the upper half of the bits.
pub open spec fn half_value(w: u16) -> real {
    single((w * 0x1_0000) as u32)
}

pub(crate) proof fn lemma_half<T: Copy, A: Arith<T>>(ar: &A, m: Reading<T>, w: u16, v: T)
    requires
        reads(ar, m),
        of_bf16(ar, w, v),
        is_finite_half(w),
    ensures
        !m.is_low(v),
        m.of(v) == half_value(w),
{
    assert((w as u32) << 16 == w * 0x1_0000) by (bit_vector);
    let bits = bf16_bits(w);
    assert(bits == w * 0x1_0000);
    assert(bits / 0x80_0000 == w / 0x80) by (nonlinear_arith)
        requires
            bits == w * 0x1_0000,
    ;
    assert(is_finite(bits));
    assert(bits == (w * 0x1_0000) as u32);
}

proof fn lemma_bf16_lane<T: Copy, A: Arith<T>>(
    ar: &A,
    m: Reading<T>,
    x: Seq<T>,
    w: Seq<u16>,
    f: spec_fn(int) -> real,
    l: int,
    n: int,
    r: T,
)
    requires
        reads(ar, m),
        f == (|i: int| m.of(x[i]) * half_value(w[i])),
        0 <= l < 32,
        32 * n <= x.len(),
        32 * n <= w.len(),
        are_numbers(m, x),
        forall|i: int| 0 <= i < w.len() ==> is_finite_half(#[trigger] w[i]),
        bf16_lane(ar, x, w, l, n, r),
    ensures
        !m.is_low(r),
        m.of(r) == strided(f, 32, l, n),
    decreases n,
{
    if n > 0 {
        let at = 32 * (n - 1) + l;
        let p = choose|p: T|
            bf16_lane(ar, x, w, l, n - 1, p) && #[trigger] bf16_lane_step(ar, p, x[at], w[at], r);
        lemma_bf16_lane(ar, m, x, w, f, l, n - 1, p);
        let v = choose|v: T| of_bf16(ar, w[at], v) && #[trigger] is_mul_add(ar, x[at], v, p, r);
        lemma_half(ar, m, w[at], v);
        assert(!m.is_low(x[at]));
        assert(f(at) == m.of(x[at]) * half_value(w[at]));
    } else {
        lemma_constants();
    }
}

proof fn lemma_bf16_tail<T: Copy, A: Arith<T>>(
    ar: &A,
    m: Reading<T>,
    x: Seq<T>,
    w: Seq<u16>,
    f: spec_fn(int) -> real,
    base: T,
    n: int,
    r: T,
)
    requires
        reads(ar, m),
        f == (|i: int| m.of(x[i]) * half_value(w[i])),
        n <= x.len(),
        n <= w.len(),
        !m.is_low(base),
        are_numbers(m, x),
        forall|i: int| 0 <= i < w.len() ==> is_finite_half(#[trigger] w[i]),
        bf16_tail(ar, x, w, base, n, r),
    ensures
        !m.is_low(r),
        m.of(r) == m.of(base) + sum(f, n),
    decreases n,
{
    if n > 0 {
        let at = n - 1;
        let p = choose|p: T|
            bf16_tail(ar, x, w, base, n - 1, p) && #[trigger] bf16_tail_step(
                ar,
                p,
                x[at],
                w[at],
                r,
            );
        lemma_bf16_tail(ar, m, x, w, f, base, n - 1, p);
        let (v, q) = choose|v: T, q: T|
            of_bf16(ar, w[at], v) && #[trigger] is_product(ar, x[at], v, q) && #[trigger] is_sum(
                ar,
                p,
                q,
                r,
            );
        lemma_half(ar, m, w[at], v);
        assert(!m.is_low(x[at]));
        assert(f(at) == m.of(x[at]) * half_value(w[at]));
    }
}

/// What the four lanes hold that are folded into lane `l`.
spec fn four(f: spec_fn(int) -> real, n: int, l: int) -> real {
    strided(f, 32, l, n) + strided(f, 32, l + 8, n) + strided(f, 32, l + 16, n) + strided(
        f,
        32,
        l + 24,
        n,
    )
}

proof fn lemma_lanes_32(f: spec_fn(int) -> real, n: int)
    ensures
        lane_sum(f, 32, n, 32) == four(f, n, 0) + four(f, n, 1) + four(f, n, 2) + four(f, n, 3)
            + four(f, n, 4) + four(f, n, 5) + four(f, n, 6) + four(f, n, 7),
{
    reveal_with_fuel(lane_sum, 33);
}

proof fn lemma_bf16_base<T: Copy, A: Arith<T>>(
    ar: &A,
    m: Reading<T>,
    lanes: Seq<T>,
    v: Seq<T>,
    base: T,
    f: spec_fn(int) -> real,
    n: int,
)
    requires
        reads(ar, m),
        forall|l: int|
            0 <= l < 32 ==> !m.is_low(#[trigger] lanes[l]) && m.of(lanes[l]) == strided(
                f,
                32,
                l,
                n,
            ),
        forall|l: int|
            0 <= l < 8 ==> is_sum_of_four(
                ar,
                lanes[l],
                lanes[l + 8],
                lanes[l + 16],
                lanes[l + 24],
                #[trigger] v[l],
            ),
        is_fold(ar, v, base),
        0 <= n,
    ensures
        !m.is_low(base),
        m.of(base) == sum(f, 32 * n),
{
    assert forall|l: int| 0 <= l < 8 implies !m.is_low(#[trigger] v[l]) && m.of(v[l]) == four(
        f,
        n,
        l,
    ) by {
        assert(is_sum_of_four(ar, lanes[l], lanes[l + 8], lanes[l + 16], lanes[l + 24], v[l]));
        assert(!m.is_low(lanes[l]) && !m.is_low(lanes[l + 8]) && !m.is_low(lanes[l + 16])
            && !m.is_low(lanes[l + 24]));
        let (a, b) = choose|a: T, b: T|
            is_sum(ar, lanes[l + 16], lanes[l + 24], a) && is_sum(ar, lanes[l + 8], lanes[l], b)
                && #[trigger] is_sum(ar, a, b, v[l]);
    }
    lemma_fold(ar, m, v, base);
    lemma_lanes_32(f, n);
    lemma_lane_sum(f, 32, n);
}

/// The dot product of a row with as many half words is the sum of the products.
pub proof fn law_dot_of_half_words<T: Copy, A: Arith<T>>(
    ar: &A,
    m: Reading<T>,
    x: Seq<T>,
    w: Seq<u16>,
    r: T,
)
    requires
        reads(ar, m),
        x.len() == w.len(),
        are_numbers(m, x),
        forall|i: int| 0 <= i < w.len() ==> is_finite_half(#[trigger] w[i]),
        is_dot_bf16(ar, x, w, r),
    ensures
        !m.is_low(r),
        m.of(r) == sum(|i: int| m.of(x[i]) * half_value(w[i]), x.len() as int),
{
    let f = |i: int| m.of(x[i]) * half_value(w[i]);
    let (lanes, v, base) = choose|lanes: Seq<T>, v: Seq<T>, base: T|
        dot_bf16_steps(ar, x, w, lanes, v, base, r);
    let n = x.len() as int / 32;
    let from = whole(x.len() as int, 32);
    assert forall|l: int| 0 <= l < 32 implies !m.is_low(#[trigger] lanes[l]) && m.of(lanes[l])
        == strided(f, 32, l, n) by {
        lemma_bf16_lane(ar, m, x, w, f, l, n, lanes[l]);
    }
    lemma_bf16_base(ar, m, lanes, v, base, f, n);
    let xt = x.skip(from);
    let wt = w.skip(from);
    let g = |i: int| m.of(xt[i]) * half_value(wt[i]);
    assert(are_numbers(m, xt)) by {
        assert forall|i: int| 0 <= i < xt.len() implies !m.is_low(#[trigger] xt[i]) by {
            assert(xt[i] == x[from + i]);
        }
    }
    assert forall|i: int| 0 <= i < wt.len() implies is_finite_half(#[trigger] wt[i]) by {
        assert(wt[i] == w[from + i]);
    }
    lemma_bf16_tail(ar, m, xt, wt, g, base, x.len() as int % 32, r);
    lemma_sum_splits(f, g, from, x.len() as int % 32);
}

// ---- Blocks ----

/// The number that a weight among blocks stands for.
pub open spec fn block_value<T>(m: Reading<T>, w: Seq<BlockQ8_0<T>>, i: int) -> real {
    ((w[i / 32].qs@[i % 32] as int) as real) * m.of(w[i / 32].d)
}

pub(crate) proof fn lemma_q8<T: Copy, A: Arith<T>>(ar: &A, m: Reading<T>, q: i8, d: T, v: T)
    requires
        reads(ar, m),
        of_q8(ar, q, d, v),
        !m.is_low(d),
    ensures
        !m.is_low(v),
        m.of(v) == ((q as int) as real) * m.of(d),
{
    let n = choose|n: T| of_i8(ar, q, n) && #[trigger] is_product(ar, n, d, v);
}

proof fn lemma_q8_lane<T: Copy, A: Arith<T>>(
    ar: &A,
    m: Reading<T>,
    x: Seq<T>,
    w: Seq<BlockQ8_0<T>>,
    f: spec_fn(int) -> real,
    l: int,
    n: int,
    r: T,
)
    requires
        reads(ar, m),
        0 <= l < 8,
        n <= 4 * w.len(),
        32 * w.len() <= x.len(),
        are_numbers(m, x),
        forall|i: int| 0 <= i < w.len() ==> !m.is_low((#[trigger] w[i]).d),
        f == (|i: int| m.of(x[i]) * block_value(m, w, i)),
        q8_lane(ar, x, w, l, n, r),
    ensures
        !m.is_low(r),
        m.of(r) == strided(f, 8, l, n),
    decreases n,
{
    if n > 0 {
        let at = 8 * (n - 1) + l;
        let q = w[(n - 1) / 4].qs@[8 * ((n - 1) % 4) + l];
        let d = w[(n - 1) / 4].d;
        let p = choose|p: T|
            q8_lane(ar, x, w, l, n - 1, p) && #[trigger] q8_lane_step(ar, p, x[at], q, d, r);
        lemma_q8_lane(ar, m, x, w, f, l, n - 1, p);
        let v = choose|v: T| of_q8(ar, q, d, v) && #[trigger] is_mul_add(ar, x[at], v, p, r);
        assert(!m.is_low(w[(n - 1) / 4].d));
        lemma_q8(ar, m, q, d, v);
        assert(at / 32 == (n - 1) / 4);
        assert(at % 32 == 8 * ((n - 1) % 4) + l);
        assert(!m.is_low(x[at]));
        assert(f(at) == m.of(x[at]) * block_value(m, w, at));
    } else {
        lemma_constants();
    }
}

/// The dot product of a row with blocks is the sum of the products of its leading elements with
/// the weights times their scales.
pub proof fn law_dot_of_blocks<T: Copy, A: Arith<T>>(
    ar: &A,
    m: Reading<T>,
    x: Seq<T>,
    w: Seq<BlockQ8_0<T>>,
    r: T,
)
    requires
        reads(ar, m),
        32 * w.len() <= x.len(),
        are_numbers(m, x),
        forall|i: int| 0 <= i < w.len() ==> !m.is_low((#[trigger] w[i]).d),
        is_dot_q8(ar, x, w, r),
    ensures
        !m.is_low(r),
        m.of(r) == sum(|i: int| m.of(x[i]) * block_value(m, w, i), 32 * (w.len() as int)),
{
    let f = |i: int| m.of(x[i]) * block_value(m, w, i);
    let lanes = choose|lanes: Seq<T>| dot_q8_steps(ar, x, w, lanes, r);
    let n = 4 * w.len() as int;
    assert forall|l: int| 0 <= l < 8 implies !m.is_low(#[trigger] lanes[l]) && m.of(lanes[l])
        == strided(f, 8, l, n) by {
        lemma_q8_lane(ar, m, x, w, f, l, n, lanes[l]);
    }
    lemma_fold(ar, m, lanes, r);
    reveal_with_fuel(lane_sum, 9);
    assert(m.of(r) == lane_sum(f, 8, n, 8));
    lemma_lane_sum(f, 8, n);
}

// ---- Rows of weights ----

/// The stored weights at the places from `from` on, `n` of them, are numbers.
pub open spec fn weights_are_numbers<T>(
    m: Reading<T>,
    w: WeightData<T>,
    from: int,
    n: int,
) -> bool {
    forall|i: int| from <= i < from + n ==> #[trigger] is_number(m, w, i)
}

/// The dot product of a row with weight row `k` of a matrix whose rows are as long, where the rows
/// lie one behind the other.
proof fn lemma_row_dot<T: Copy, A: Arith<T>>(
    ar: &A,
    m: Reading<T>,
    x: Seq<T>,
    w: WeightData<T>,
    k: int,
    cols: int,
    r: T,
)
    requires
        reads(ar, m),
        x.len() == cols,
        0 <= k,
        w is Q8 ==> cols % 32 == 0,
        are_numbers(m, x),
        weights_are_numbers(m, w, k * cols, cols),
        match w {
            WeightData::BF16(s) => (k + 1) * cols <= s@.len(),
            WeightData::Q8(s) => (k + 1) * (cols / 32) <= s@.len(),
            WeightData::F32(_) => false,
        },
        ({
            let width = if w is Q8 {
                cols / 32
            } else {
                cols
            };
            is_weight_dot(ar, x, w, k * width, k * width + width, r)
        }),
    ensures
        !m.is_low(r),
        m.of(r) == sum(|i: int| m.of(x[i]) * weight_value(m, w, k * cols + i), cols),
{
    let f = |i: int| m.of(x[i]) * weight_value(m, w, k * cols + i);
    match w {
        WeightData::BF16(s) => {
            let from = k * cols;
            assert(0 <= from && from + cols == (k + 1) * cols) by (nonlinear_arith)
                requires
                    from == k * cols,
                    0 <= k,
                    0 <= cols,
            ;
            let words = s@.subrange(from, from + cols);
            assert forall|i: int| 0 <= i < words.len() implies is_finite_half(
                #[trigger] words[i],
            ) by {
                assert(is_number(m, w, from + i));
            }
            law_dot_of_half_words(ar, m, x, words, r);
            let g = |i: int| m.of(x[i]) * half_value(words[i]);
            assert forall|i: int| 0 <= i < cols implies #[trigger] g(i) == f(i) by {
                assert(words[i] == s@[from + i]);
            }
            lemma_sum_same(g, f, cols);
        },
        WeightData::Q8(s) => {
            let width = cols / 32;
            let from = k * width;
            assert(0 <= from && from + width == (k + 1) * width && 32 * from == k * cols)
                by (nonlinear_arith)
                requires
                    from == k * width,
                    0 <= k,
                    cols == 32 * width,
                    0 <= width,
            ;
            let blocks = s@.subrange(from, from + width);
            assert forall|i: int| 0 <= i < blocks.len() implies !m.is_low(
                (#[trigger] blocks[i]).d,
            ) by {
                assert(is_number(m, w, k * cols + 32 * i));
                assert((k * cols + 32 * i) / 32 == from + i);
            }
            law_dot_of_blocks(ar, m, x, blocks, r);
            let g = |i: int| m.of(x[i]) * block_value(m, blocks, i);
            assert forall|i: int| 0 <= i < cols implies #[trigger] g(i) == f(i) by {
                let at = k * cols + i;
                assert(at / 32 == from + i / 32);
                assert(at % 32 == i % 32);
                assert(blocks[i / 32] == s@[from + i / 32]);
            }
            lemma_sum_same(g, f, cols);
        },
        WeightData::F32(_) => {},
    }
}

/// There are weights for `rows` rows of `cols` columns, in blocks or half words, and all of them
/// are numbers.
pub open spec fn holds_matrix<T>(m: Reading<T>, w: WeightData<T>, rows: int, cols: int) -> bool {
    &&& match w {
        WeightData::BF16(s) => rows * cols <= s@.len(),
        WeightData::Q8(s) => cols % 32 == 0 && rows * (cols / 32) <= s@.len(),
        WeightData::F32(_) => false,
    }
    &&& weights_are_numbers(m, w, 0, rows * cols)
}

proof fn lemma_matrix_row<T>(m: Reading<T>, w: WeightData<T>, rows: int, cols: int, k: int)
    requires
        holds_matrix(m, w, rows, cols),
        0 <= k < rows,
        0 <= cols,
    ensures
        weights_are_numbers(m, w, k * cols, cols),
        match w {
            WeightData::BF16(s) => (k + 1) * cols <= s@.len(),
            WeightData::Q8(s) => (k + 1) * (cols / 32) <= s@.len(),
            WeightData::F32(_) => false,
        },
{
    lemma_row_bounds(k, rows, cols);
    lemma_row_bounds(k, rows, cols / 32);
}

// ---- Projections ----

/// The number that a bias stands for.
pub open spec fn bias_value<T>(m: Reading<T>, b: WeightData<T>, j: int) -> real {
    match b {
        WeightData::BF16(s) => half_value(s@[j]),
        WeightData::F32(s) => m.of(s@[j]),
        WeightData::Q8(_) => 0real,
    }
}

/// Output `j` of row `i` of a projection is the sum of the products of the row's elements with
/// those of row `j` of the weights, plus bias `j`.
pub proof fn law_linear_projection<T: Copy, A: Arith<T>>(
    ar: &A,
    m: Reading<T>,
    input: Tensor<T>,
    weight: WeightTensor<T>,
    bias: WeightTensor<T>,
    before: Tensor<T>,
    after: Tensor<T>,
    i: int,
    j: int,
)
    requires
        reads(ar, m),
        is_linear_proj(ar, input, weight, bias, before, after),
        input.shape@[0] * input.shape@[1] <= input.data@.len(),
        row_is_numbers(m, input.data@, i * input.shape@[1], input.shape@[1] as int),
        holds_matrix(m, weight.data, weight.shape@[0] as int, input.shape@[1] as int),
        is_number(m, bias.data, j),
        !(bias.data is Q8),
        0 <= i < input.shape@[0],
        0 <= j < weight.shape@[0],
        weight.shape@[0] <= before.strides@[0],
    ensures
        ({
            let n = input.shape@[1] as int;
            let r = after.data@[i * before.strides@[0] + j];
            &&& !m.is_low(r)
            &&& m.of(r) == sum(
                |d: int| m.of(input.data@[i * n + d]) * weight_value(m, weight.data, j * n + d),
                n,
            ) + bias_value(m, bias.data, j)
        }),
{
    let n = input.shape@[1] as int;
    let step = before.strides@[0] as int;
    let r = after.data@[slot(i, step, j)];
    let x = row_at(input.data@, i, n);
    let w = weight.data;
    assert(is_projected(ar, x, w, bias.data, j, r));
    lemma_row_bounds(i, input.shape@[0] as int, n);
    lemma_matrix_row(m, w, weight.shape@[0] as int, n, j);
    let width = if w is Q8 {
        n / 32
    } else {
        n
    };
    assert(j * width + width == (j + 1) * width) by (nonlinear_arith);
    let (s, c) = choose|s: T, c: T|
        is_weight_dot(ar, x, w, j * width, (j + 1) * width, s) && is_bias(ar, bias.data, j, c)
            && #[trigger] is_sum(ar, s, c, r);
    assert(x.len() == n);
    assert(are_numbers(m, x)) by {
        assert forall|d: int| 0 <= d < x.len() implies !m.is_low(#[trigger] x[d]) by {
            assert(x[d] == input.data@[i * n + d]);
        }
    }
    lemma_row_dot(ar, m, x, w, j, n, s);
    match bias.data {
        WeightData::BF16(v) => lemma_half(ar, m, v@[j], c),
        _ => {},
    }
    let f = |d: int| m.of(x[d]) * weight_value(m, w, j * n + d);
    let g = |d: int| m.of(input.data@[i * n + d]) * weight_value(m, w, j * n + d);
    assert forall|d: int| 0 <= d < n implies #[trigger] f(d) == g(d) by {
        assert(x[d] == input.data@[i * n + d]);
    }
    lemma_sum_same(f, g, n);
}

/// Each token's row is its row of the embedding, element by element.
pub proof fn law_token_embedding<T: Copy, A: Arith<T>>(
    ar: &A,
    m: Reading<T>,
    tokens: Seq<usize>,
    weight: WeightTensor<T>,
    x: Tensor<T>,
    t: int,
    k: int,
)
    requires
        reads(ar, m),
        is_token_embedding(ar, tokens, weight, x),
        0 <= t < tokens.len(),
        0 <= k < weight.shape@[1],
        weight.data is Q8 ==> weight.shape@[1] % 32 == 0,
        !(weight.data is F32),
        is_number(m, weight.data, tokens[t] * weight.shape@[1] + k),
    ensures
        ({
            let n = weight.shape@[1] as int;
            &&& !m.is_low(x.data@[t * n + k])
            &&& m.of(x.data@[t * n + k]) == weight_value(m, weight.data, tokens[t] * n + k)
        }),
        x.shape@ == seq![tokens.len() as usize, weight.shape@[1]],
{
    let n = weight.shape@[1] as int;
    let row = row_at(x.data@, t, n);
    assert(n / 32 * 32 == n || !(weight.data is Q8));
    assert(is_embedding(ar, weight.data, tokens[t] as int, n, row));
    lemma_row_bounds(t, tokens.len() as int, n);
    assert(row[k] == x.data@[t * n + k]);
    assert(is_weight(ar, weight.data, tokens[t] * n + k, row[k]));
    match weight.data {
        WeightData::BF16(s) => lemma_half(ar, m, s@[tokens[t] * n + k], row[k]),
        WeightData::Q8(s) => {
            let at = tokens[t] * n + k;
            lemma_q8(ar, m, s@[at / 32].qs@[at % 32], s@[at / 32].d, row[k]);
        },
        WeightData::F32(_) => {},
    }
}

/// Element `(i, k)` of a feed-forward layer is the sum of the products of the elements of row `i`
/// with those of row `k` of the weights.
pub proof fn law_feed_forward_layer<T: Copy, A: Arith<T>>(
    ar: &A,
    m: Reading<T>,
    x: Tensor<T>,
    weight: WeightTensor<T>,
    before: Tensor<T>,
    after: Tensor<T>,
    i: int,
    k: int,
)
    requires
        reads(ar, m),
        is_mlp_mul(ar, x, weight, before, after),
        weight.shape@.len() == 2,
        x.strides@.len() == 2,
        x.strides@[0] == weight.shape@[1],
        x.strides@[1] == 1,
        weight.strides@.len() == 2,
        weight.strides@[0] == weight.shape@[1],
        weight.strides@[1] == 1,
        x.shape@[0] * weight.shape@[1] <= x.data@.len(),
        row_is_numbers(m, x.data@, i * weight.shape@[1], weight.shape@[1] as int),
        holds_matrix(m, weight.data, weight.shape@[0] as int, weight.shape@[1] as int),
        0 <= i < x.shape@[0],
        0 <= k < weight.shape@[0],
    ensures
        ({
            let n = weight.shape@[1] as int;
            let r = after.data@[i * weight.shape@[0] + k];
            &&& !m.is_low(r)
            &&& m.of(r) == sum(
                |d: int| m.of(x.data@[i * n + d]) * weight_value(m, weight.data, k * n + d),
                n,
            )
        }),
        after.shape@ == seq![x.shape@[0], weight.shape@[0]],
{
    let n = weight.shape@[1] as int;
    let outs = weight.shape@[0] as int;
    let r = after.data@[slot(i, outs, k)];
    let w = weight.data;
    assert(is_mlp_cell(ar, x, weight, i, k, r));
    assert(n * x.strides@[1] == n && n * weight.strides@[1] == n) by (nonlinear_arith)
        requires
            x.strides@[1] == 1,
            weight.strides@[1] == 1,
    ;
    lemma_row_bounds(i, x.shape@[0] as int, n);
    lemma_matrix_row(m, w, outs, n, k);
    lemma_cell(ar, m, x.data@, w, i, k, n, r);
}

proof fn lemma_cell<T: Copy, A: Arith<T>>(
    ar: &A,
    m: Reading<T>,
    data: Seq<T>,
    w: WeightData<T>,
    i: int,
    k: int,
    n: int,
    r: T,
)
    requires
        reads(ar, m),
        0 <= i * n,
        i * n + n <= data.len(),
        0 <= n,
        0 <= k,
        row_is_numbers(m, data, i * n, n),
        w is Q8 ==> n % 32 == 0,
        weights_are_numbers(m, w, k * n, n),
        match w {
            WeightData::BF16(s) => (k + 1) * n <= s@.len(),
            WeightData::Q8(s) => (k + 1) * (n / 32) <= s@.len(),
            WeightData::F32(_) => false,
        },
        is_row_dot(ar, run(data, i, n, n), w, k, n, n, n, r),
    ensures
        !m.is_low(r),
        m.of(r) == sum(|d: int| m.of(data[i * n + d]) * weight_value(m, w, k * n + d), n),
{
    let x = run(data, i, n, n);
    assert(are_numbers(m, x)) by {
        assert forall|d: int| 0 <= d < x.len() implies !m.is_low(#[trigger] x[d]) by {
            assert(x[d] == data[i * n + d]);
        }
    }
    let from = row_start(w, k, n, n);
    assert(is_weight_dot(ar, x, w, from, from + row_len(w, n, n), r));
    lemma_row_dot(ar, m, x, w, k, n, r);
    let f = |d: int| m.of(x[d]) * weight_value(m, w, k * n + d);
    let g = |d: int| m.of(data[i * n + d]) * weight_value(m, w, k * n + d);
    assert forall|d: int| 0 <= d < n implies #[trigger] f(d) == g(d) by {
        assert(x[d] == data[i * n + d]);
    }
    lemma_sum_same(f, g, n);
}

/// Element `(i, k)` of the output projection by a square matrix is the sum of the products of the
/// elements of row `i` with those of row `k` of the matrix, and behind the rows there are zeros.
pub proof fn law_output_projection<T: Copy, A: Arith<T>>(
    ar: &A,
    m: Reading<T>,
    attn: Tensor<T>,
    o: WeightTensor<T>,
    before: Tensor<T>,
    after: Tensor<T>,
    i: int,
    k: int,
)
    requires
        reads(ar, m),
        is_out_proj(ar, attn, o, before, after),
        attn.shape@.len() == 2,
        attn.strides@.len() == 2,
        attn.strides@[0] == attn.shape@[1],
        o.shape@ == seq![attn.shape@[1], attn.shape@[1]],
        o.strides@.len() == 2,
        o.strides@[0] == attn.shape@[1],
        attn.shape@[0] * attn.shape@[1] <= attn.data@.len(),
        attn.shape@[0] * attn.shape@[1] <= before.data@.len(),
        row_is_numbers(m, attn.data@, i * attn.shape@[1], attn.shape@[1] as int),
        holds_matrix(m, o.data, attn.shape@[1] as int, attn.shape@[1] as int),
        0 <= i < attn.shape@[0],
        0 <= k < attn.shape@[1],
    ensures
        ({
            let n = attn.shape@[1] as int;
            let r = after.data@[i * n + k];
            &&& !m.is_low(r)
            &&& m.of(r) == sum(
                |d: int| m.of(attn.data@[i * n + d]) * weight_value(m, o.data, k * n + d),
                n,
            )
        }),
        forall|p: int|
            attn.shape@[0] * attn.shape@[1] <= p < after.data@.len() ==> !m.is_low(
                #[trigger] after.data@[p],
            ) && m.of(after.data@[p]) == 0real,
        after.shape@ == attn.shape@,
{
    let n = attn.shape@[1] as int;
    let rows = attn.shape@[0] as int;
    lemma_constants();
    law_out_projections_agree(ar, attn, o, after.data@);
    let r = after.data@[slot(i, n, k)];
    lemma_row_bounds(i, rows, n);
    lemma_matrix_row(m, o.data, n, n, k);
    assert(is_out_single(ar, attn, o, i, k, r));
    lemma_cell(ar, m, attn.data@, o.data, i, k, n, r);
    assert(after.shape@ =~= attn.shape@);
}

} // verus!
