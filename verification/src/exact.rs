//! What the dot products are in exact arithmetic: however their sums are laid out in lanes, they
//! are the sum of the products.
use vstd::prelude::*;

use crate::arith::{
    is_mul_add, is_product, is_sum, of_bf16, of_bits, of_i8, of_q8, Arith, ZERO_BITS,
};
use crate::dot::{
    bf16_lane, bf16_lane_step, bf16_tail, bf16_tail_step, dot_bf16_steps, dot_q8_steps,
    fold_steps, is_dot_bf16, is_dot_q8, is_fold, is_sum_of_four, q8_lane, q8_lane_step, whole,
};
use crate::tensor::BlockQ8_0;

verus! {

/// Scalars stand for integers, and the operations are exact on them.
pub open spec fn is_exact<T: Copy, A: Arith<T>>(ar: &A, value: spec_fn(T) -> int) -> bool {
    &&& forall|r: T| #[trigger] of_bits(ar, ZERO_BITS, r) ==> value(r) == 0
    &&& forall|a: T, b: T, r: T| #[trigger] is_sum(ar, a, b, r) ==> value(r) == value(a) + value(b)
    &&& forall|a: T, b: T, r: T| #[trigger]
        is_product(ar, a, b, r) ==> value(r) == value(a) * value(b)
    &&& forall|a: T, b: T, c: T, r: T| #[trigger]
        is_mul_add(ar, a, b, c, r) ==> value(r) == value(a) * value(b) + value(c)
}

/// The sum of the first `n` values of `f`.
pub open spec fn total(f: spec_fn(int) -> int, n: int) -> int
    decreases n,
{
    if n <= 0 {
        0
    } else {
        total(f, n - 1) + f(n - 1)
    }
}

/// The sum of every `step`-th value of `f` from `l` on, `n` of them.
spec fn strided(f: spec_fn(int) -> int, step: int, l: int, n: int) -> int
    decreases n,
{
    if n <= 0 {
        0
    } else {
        strided(f, step, l, n - 1) + f(step * (n - 1) + l)
    }
}

/// The sum over the lanes `0` to `k`.
spec fn lane_sum(f: spec_fn(int) -> int, step: int, n: int, k: int) -> int
    decreases k,
{
    if k <= 0 {
        0
    } else {
        lane_sum(f, step, n, k - 1) + strided(f, step, k - 1, n)
    }
}

/// One more group adds its values to the lanes.
proof fn lemma_lane_sum_step(f: spec_fn(int) -> int, step: int, n: int, k: int)
    requires
        0 < n,
        0 <= k <= step,
    ensures
        lane_sum(f, step, n, k) == lane_sum(f, step, n - 1, k) + total(f, step * (n - 1) + k)
            - total(f, step * (n - 1)),
    decreases k,
{
    if k > 0 {
        lemma_lane_sum_step(f, step, n, k - 1);
        assert(0 <= step * (n - 1)) by (nonlinear_arith)
            requires
                0 < n,
                0 < step,
        ;
    }
}

/// The lanes hold, together, the sum over all groups.
proof fn lemma_lane_sum(f: spec_fn(int) -> int, step: int, n: int)
    requires
        0 < step,
        0 <= n,
    ensures
        lane_sum(f, step, n, step) == total(f, step * n),
    decreases n,
{
    if n == 0 {
        lemma_lane_sum_empty(f, step, step);
    } else {
        lemma_lane_sum(f, step, n - 1);
        lemma_lane_sum_step(f, step, n, step);
        assert(step * (n - 1) + step == step * n) by (nonlinear_arith);
    }
}

proof fn lemma_lane_sum_empty(f: spec_fn(int) -> int, step: int, k: int)
    ensures
        lane_sum(f, step, 0, k) == 0,
    decreases k,
{
    if k > 0 {
        lemma_lane_sum_empty(f, step, k - 1);
    }
}

/// The sum of the first `a + b` values is that of the first `a` and that of the `b` behind them.
proof fn lemma_total_splits(f: spec_fn(int) -> int, g: spec_fn(int) -> int, a: int, b: int)
    requires
        0 <= a,
        0 <= b,
        forall|i: int| 0 <= i < b ==> #[trigger] g(i) == f(a + i),
    ensures
        total(f, a + b) == total(f, a) + total(g, b),
    decreases b,
{
    if b > 0 {
        lemma_total_splits(f, g, a, b - 1);
        assert(g(b - 1) == f(a + (b - 1)));
    }
}

proof fn lemma_fold_is_sum<T: Copy, A: Arith<T>>(
    ar: &A,
    value: spec_fn(T) -> int,
    v: Seq<T>,
    r: T,
)
    requires
        is_exact(ar, value),
        is_fold(ar, v, r),
    ensures
        value(r) == value(v[0]) + value(v[1]) + value(v[2]) + value(v[3]) + value(v[4]) + value(
            v[5],
        ) + value(v[6]) + value(v[7]),
{
    let (q, h) = choose|q: Seq<T>, h: Seq<T>| fold_steps(ar, v, q, h, r);
    assert(is_sum(ar, v[0], v[4], q[0]) && is_sum(ar, v[1], v[5], q[1]) && is_sum(
        ar,
        v[2],
        v[6],
        q[2],
    ) && is_sum(ar, v[3], v[7], q[3]));
    assert(is_sum(ar, q[0], q[2], h[0]) && is_sum(ar, q[1], q[3], h[1]));
}

// ---- Half words ----

/// Half words stand for integers.
pub open spec fn halves_stand_for<T: Copy, A: Arith<T>>(
    ar: &A,
    value: spec_fn(T) -> int,
    half: spec_fn(u16) -> int,
) -> bool {
    forall|w: u16, v: T| #[trigger] of_bf16(ar, w, v) ==> value(v) == half(w)
}

proof fn lemma_bf16_lane<T: Copy, A: Arith<T>>(
    ar: &A,
    value: spec_fn(T) -> int,
    half: spec_fn(u16) -> int,
    x: Seq<T>,
    w: Seq<u16>,
    f: spec_fn(int) -> int,
    l: int,
    n: int,
    r: T,
)
    requires
        is_exact(ar, value),
        halves_stand_for(ar, value, half),
        f == (|i: int| value(x[i]) * half(w[i])),
        bf16_lane(ar, x, w, l, n, r),
    ensures
        value(r) == strided(f, 32, l, n),
    decreases n,
{
    if n > 0 {
        let p = choose|p: T|
            bf16_lane(ar, x, w, l, n - 1, p) && #[trigger] bf16_lane_step(
                ar,
                p,
                x[32 * (n - 1) + l],
                w[32 * (n - 1) + l],
                r,
            );
        lemma_bf16_lane(ar, value, half, x, w, f, l, n - 1, p);
        let v = choose|v: T|
            of_bf16(ar, w[32 * (n - 1) + l], v) && #[trigger] is_mul_add(
                ar,
                x[32 * (n - 1) + l],
                v,
                p,
                r,
            );
        assert(f(32 * (n - 1) + l) == value(x[32 * (n - 1) + l]) * half(w[32 * (n - 1) + l]));
    }
}

proof fn lemma_bf16_tail<T: Copy, A: Arith<T>>(
    ar: &A,
    value: spec_fn(T) -> int,
    half: spec_fn(u16) -> int,
    x: Seq<T>,
    w: Seq<u16>,
    f: spec_fn(int) -> int,
    base: T,
    n: int,
    r: T,
)
    requires
        is_exact(ar, value),
        halves_stand_for(ar, value, half),
        f == (|i: int| value(x[i]) * half(w[i])),
        bf16_tail(ar, x, w, base, n, r),
    ensures
        value(r) == value(base) + total(f, n),
    decreases n,
{
    if n > 0 {
        let p = choose|p: T|
            bf16_tail(ar, x, w, base, n - 1, p) && #[trigger] bf16_tail_step(
                ar,
                p,
                x[n - 1],
                w[n - 1],
                r,
            );
        lemma_bf16_tail(ar, value, half, x, w, f, base, n - 1, p);
        let (v, q) = choose|v: T, q: T|
            of_bf16(ar, w[n - 1], v) && #[trigger] is_product(ar, x[n - 1], v, q)
                && #[trigger] is_sum(ar, p, q, r);
        assert(f(n - 1) == value(x[n - 1]) * half(w[n - 1]));
    }
}

/// In exact arithmetic the dot product of a row with as many half words is the sum of the products.
pub proof fn law_dot_of_half_words_is_the_sum<T: Copy, A: Arith<T>>(
    ar: &A,
    value: spec_fn(T) -> int,
    half: spec_fn(u16) -> int,
    x: Seq<T>,
    w: Seq<u16>,
    r: T,
)
    requires
        is_exact(ar, value),
        halves_stand_for(ar, value, half),
        x.len() == w.len(),
        is_dot_bf16(ar, x, w, r),
    ensures
        value(r) == total(|i: int| value(x[i]) * half(w[i]), x.len() as int),
{
    let f = |i: int| value(x[i]) * half(w[i]);
    let (lanes, v, base) = choose|lanes: Seq<T>, v: Seq<T>, base: T|
        dot_bf16_steps(ar, x, w, lanes, v, base, r);
    let n = x.len() as int / 32;
    let from = whole(x.len() as int, 32);
    assert forall|l: int| 0 <= l < 32 implies value(#[trigger] lanes[l]) == strided(f, 32, l, n) by {
        lemma_bf16_lane(ar, value, half, x, w, f, l, n, lanes[l]);
    }
    assert forall|l: int| 0 <= l < 8 implies value(#[trigger] v[l]) == strided(f, 32, l, n)
        + strided(f, 32, l + 8, n) + strided(f, 32, l + 16, n) + strided(f, 32, l + 24, n) by {
        assert(is_sum_of_four(ar, lanes[l], lanes[l + 8], lanes[l + 16], lanes[l + 24], v[l]));
        let (a, b) = choose|a: T, b: T|
            is_sum(ar, lanes[l + 16], lanes[l + 24], a) && is_sum(ar, lanes[l + 8], lanes[l], b)
                && #[trigger] is_sum(ar, a, b, v[l]);
    }
    lemma_fold_is_sum(ar, value, v, base);
    reveal_with_fuel(lane_sum, 33);
    assert(value(base) == lane_sum(f, 32, n, 32));
    lemma_lane_sum(f, 32, n);
    let xt = x.skip(from);
    let wt = w.skip(from);
    let g = |i: int| value(xt[i]) * half(wt[i]);
    lemma_bf16_tail(ar, value, half, xt, wt, g, base, x.len() as int % 32, r);
    lemma_total_splits(f, g, from, x.len() as int % 32);
}

// ---- Blocks ----

/// Signed bytes stand for themselves.
pub open spec fn bytes_stand_for<T: Copy, A: Arith<T>>(ar: &A, value: spec_fn(T) -> int) -> bool {
    forall|q: i8, v: T| #[trigger] of_i8(ar, q, v) ==> value(v) == q
}

/// The weight at `i` among the blocks.
pub open spec fn block_weight<T: Copy>(
    value: spec_fn(T) -> int,
    w: Seq<BlockQ8_0<T>>,
    i: int,
) -> int {
    w[i / 32].qs@[i % 32] * value(w[i / 32].d)
}

proof fn lemma_q8_lane<T: Copy, A: Arith<T>>(
    ar: &A,
    value: spec_fn(T) -> int,
    x: Seq<T>,
    w: Seq<BlockQ8_0<T>>,
    f: spec_fn(int) -> int,
    l: int,
    n: int,
    r: T,
)
    requires
        is_exact(ar, value),
        bytes_stand_for(ar, value),
        0 <= l < 8,
        f == (|i: int| value(x[i]) * block_weight(value, w, i)),
        q8_lane(ar, x, w, l, n, r),
    ensures
        value(r) == strided(f, 8, l, n),
    decreases n,
{
    if n > 0 {
        let at = 8 * (n - 1) + l;
        let q = w[(n - 1) / 4].qs@[8 * ((n - 1) % 4) + l];
        let d = w[(n - 1) / 4].d;
        let p = choose|p: T|
            q8_lane(ar, x, w, l, n - 1, p) && #[trigger] q8_lane_step(
                ar,
                p,
                x[8 * (n - 1) + l],
                w[(n - 1) / 4].qs@[8 * ((n - 1) % 4) + l],
                w[(n - 1) / 4].d,
                r,
            );
        lemma_q8_lane(ar, value, x, w, f, l, n - 1, p);
        let v = choose|v: T| of_q8(ar, q, d, v) && #[trigger] is_mul_add(ar, x[at], v, p, r);
        let b = choose|b: T| of_i8(ar, q, b) && #[trigger] is_product(ar, b, d, v);
        assert(at / 32 == (n - 1) / 4);
        assert(at % 32 == 8 * ((n - 1) % 4) + l);
        assert(f(at) == value(x[at]) * block_weight(value, w, at));
    }
}

/// In exact arithmetic the dot product of a row with blocks is the sum of the products of its
/// leading elements with the weights times their scales.
pub proof fn law_dot_of_blocks_is_the_sum<T: Copy, A: Arith<T>>(
    ar: &A,
    value: spec_fn(T) -> int,
    x: Seq<T>,
    w: Seq<BlockQ8_0<T>>,
    r: T,
)
    requires
        is_exact(ar, value),
        bytes_stand_for(ar, value),
        32 * w.len() <= x.len(),
        is_dot_q8(ar, x, w, r),
    ensures
        value(r) == total(
            |i: int| value(x[i]) * block_weight(value, w, i),
            32 * (w.len() as int),
        ),
{
    let f = |i: int| value(x[i]) * block_weight(value, w, i);
    let lanes = choose|lanes: Seq<T>| dot_q8_steps(ar, x, w, lanes, r);
    let n = 4 * w.len() as int;
    assert forall|l: int| 0 <= l < 8 implies value(#[trigger] lanes[l]) == strided(f, 8, l, n) by {
        lemma_q8_lane(ar, value, x, w, f, l, n, lanes[l]);
    }
    lemma_fold_is_sum(ar, value, lanes, r);
    reveal_with_fuel(lane_sum, 9);
    assert(value(r) == lane_sum(f, 8, n, 8));
    lemma_lane_sum(f, 8, n);
}

} // verus!
