//! Dot products of an activation row with a stored weight row.
//!
//! The sums run in a fixed number of lanes that are folded together at the end, so the order of
//! the additions, which decides how they round, is part of the contracts.
use vstd::prelude::*;

use crate::arith::{
    bf16_u16_to_f32, of_bf16, of_bits, of_q8, q8_to_f32, is_mul_add, is_product, is_sum, Arith,
    ZERO_BITS,
};
use crate::tensor::BlockQ8_0;

verus! {

// ---- Folding eight lanes ----

/// One way to fold eight lanes: first the two halves, then the pairs, then the last two.
pub open spec fn fold_steps<T: Copy, A: Arith<T>>(
    ar: &A,
    v: Seq<T>,
    q: Seq<T>,
    h: Seq<T>,
    r: T,
) -> bool {
    &&& q.len() == 4
    &&& h.len() == 2
    &&& forall|l: int| 0 <= l < 4 ==> is_sum(ar, v[l], v[l + 4], #[trigger] q[l])
    &&& forall|l: int| 0 <= l < 2 ==> is_sum(ar, q[l], q[l + 2], #[trigger] h[l])
    &&& is_sum(ar, h[0], h[1], r)
}

/// `r` is the sum of the eight lanes `v`.
pub open spec fn is_fold<T: Copy, A: Arith<T>>(ar: &A, v: Seq<T>, r: T) -> bool {
    exists|q: Seq<T>, h: Seq<T>| fold_steps(ar, v, q, h, r)
}

pub(crate) fn fold_lanes<T: Copy, A: Arith<T>>(ar: &A, v: &[T; 8]) -> (r: T)
    ensures
        is_fold(ar, v@, r),
{
    let q0 = ar.add(v[0], v[4]);
    let q1 = ar.add(v[1], v[5]);
    let q2 = ar.add(v[2], v[6]);
    let q3 = ar.add(v[3], v[7]);
    let h0 = ar.add(q0, q2);
    let h1 = ar.add(q1, q3);
    let r = ar.add(h0, h1);
    proof {
        let q = seq![q0, q1, q2, q3];
        let h = seq![h0, h1];
        assert(fold_steps(ar, v@, q, h, r));
    }
    r
}

// ---- Half-word weights ----

/// One step of a lane: `r` is `x * w + p`, rounded once.
pub open spec fn bf16_lane_step<T: Copy, A: Arith<T>>(ar: &A, p: T, x: T, w: u16, r: T) -> bool {
    exists|v: T| of_bf16(ar, w, v) && #[trigger] is_mul_add(ar, x, v, p, r)
}

/// `r` is what lane `l` of 32 holds after the first `n` chunks of 32 elements.
pub open spec fn bf16_lane<T: Copy, A: Arith<T>>(
    ar: &A,
    x: Seq<T>,
    w: Seq<u16>,
    l: int,
    n: int,
    r: T,
) -> bool
    decreases n,
{
    if n <= 0 {
        of_bits(ar, ZERO_BITS, r)
    } else {
        exists|p: T|
            bf16_lane(ar, x, w, l, n - 1, p) && #[trigger] bf16_lane_step(
                ar,
                p,
                x[32 * (n - 1) + l],
                w[32 * (n - 1) + l],
                r,
            )
    }
}

/// One element behind the last whole chunk: `r` is `p + x * w`.
pub open spec fn bf16_tail_step<T: Copy, A: Arith<T>>(ar: &A, p: T, x: T, w: u16, r: T) -> bool {
    exists|v: T, q: T|
        of_bf16(ar, w, v) && #[trigger] is_product(ar, x, v, q) && #[trigger] is_sum(ar, p, q, r)
}

/// `r` is `base` with the products of the first `n` elements of the two tails added one by one.
pub open spec fn bf16_tail<T: Copy, A: Arith<T>>(
    ar: &A,
    x: Seq<T>,
    w: Seq<u16>,
    base: T,
    n: int,
    r: T,
) -> bool
    decreases n,
{
    if n <= 0 {
        r == base
    } else {
        exists|p: T|
            bf16_tail(ar, x, w, base, n - 1, p) && #[trigger] bf16_tail_step(
                ar,
                p,
                x[n - 1],
                w[n - 1],
                r,
            )
    }
}

/// The first place behind the last whole chunk of `size` elements.
pub open spec fn whole(len: int, size: int) -> int {
    len / size * size
}

/// The lesser of two numbers.
pub open spec fn lesser(a: int, b: int) -> int {
    if a <= b {
        a
    } else {
        b
    }
}

/// `r` is `(s3 + s4) + (s2 + s1)`.
pub open spec fn is_sum_of_four<T: Copy, A: Arith<T>>(
    ar: &A,
    s1: T,
    s2: T,
    s3: T,
    s4: T,
    r: T,
) -> bool {
    exists|a: T, b: T|
        is_sum(ar, s3, s4, a) && is_sum(ar, s2, s1, b) && #[trigger] is_sum(ar, a, b, r)
}

/// The lanes, their four-way sums and the folded sum from which the dot product comes.
pub open spec fn dot_bf16_steps<T: Copy, A: Arith<T>>(
    ar: &A,
    x: Seq<T>,
    w: Seq<u16>,
    lanes: Seq<T>,
    v: Seq<T>,
    base: T,
    r: T,
) -> bool {
    let chunks = lesser(x.len() as int / 32, w.len() as int / 32);
    &&& lanes.len() == 32
    &&& v.len() == 8
    &&& forall|l: int| 0 <= l < 32 ==> bf16_lane(ar, x, w, l, chunks, #[trigger] lanes[l])
    &&& forall|l: int|
        0 <= l < 8 ==> is_sum_of_four(
            ar,
            lanes[l],
            lanes[l + 8],
            lanes[l + 16],
            lanes[l + 24],
            #[trigger] v[l],
        )
    &&& is_fold(ar, v, base)
    &&& bf16_tail(
        ar,
        x.skip(whole(x.len() as int, 32)),
        w.skip(whole(w.len() as int, 32)),
        base,
        x.len() as int % 32,
        r,
    )
}

/// `r` is the dot product of a row with half-word weights: the whole chunks of 32 in lanes, then
/// the elements behind them one by one.
pub open spec fn is_dot_bf16<T: Copy, A: Arith<T>>(ar: &A, x: Seq<T>, w: Seq<u16>, r: T) -> bool {
    exists|lanes: Seq<T>, v: Seq<T>, base: T| dot_bf16_steps(ar, x, w, lanes, v, base, r)
}

/// The dot product of a row with half-word weights.
pub fn dot_avx2_bf16<T: Copy, A: Arith<T>>(ar: &A, x: &[T], w: &[u16]) -> (r: T)
    requires
        x@.len() % 32 <= w@.len() % 32,
    ensures
        is_dot_bf16(ar, x@, w@, r),
{
    let x_chunks = x.len() / 32;
    let w_chunks = w.len() / 32;
    let chunks = if x_chunks <= w_chunks {
        x_chunks
    } else {
        w_chunks
    };
    let zero = ar.from_bits(ZERO_BITS);
    let mut lanes: [T; 32] = [zero; 32];
    let mut c: usize = 0;
    assert(forall|l: int| 0 <= l < 32 ==> bf16_lane(ar, x@, w@, l, 0, #[trigger] lanes@[l]));
    while c < chunks
        invariant
            c <= chunks,
            32 * chunks <= x.len(),
            32 * chunks <= w.len(),
            forall|l: int|
                0 <= l < 32 ==> bf16_lane(ar, x@, w@, l, c as int, #[trigger] lanes@[l]),
        decreases chunks - c,
    {
        let mut k: usize = 0;
        while k < 32
            invariant
                c < chunks,
                k <= 32,
                32 * chunks <= x.len(),
                32 * chunks <= w.len(),
                forall|l: int|
                    0 <= l < k ==> bf16_lane(ar, x@, w@, l, c + 1, #[trigger] lanes@[l]),
                forall|l: int|
                    k <= l < 32 ==> bf16_lane(ar, x@, w@, l, c as int, #[trigger] lanes@[l]),
            decreases 32 - k,
        {
            let p = lanes[k];
            let v = bf16_u16_to_f32(ar, w[32 * c + k]);
            let r = ar.mul_add(x[32 * c + k], v, p);
            proof {
                let n = c + 1;
                assert(is_mul_add(ar, x@[32 * (n - 1) + k], v, p, r));
                assert(bf16_lane_step(ar, p, x@[32 * (n - 1) + k], w@[32 * (n - 1) + k], r));
                assert(bf16_lane(ar, x@, w@, k as int, n, r));
            }
            lanes[k] = r;
            k += 1;
        }
        c += 1;
    }
    let mut v: [T; 8] = [zero; 8];
    let mut l: usize = 0;
    while l < 8
        invariant
            l <= 8,
            forall|j: int|
                0 <= j < l ==> is_sum_of_four(
                    ar,
                    lanes@[j],
                    lanes@[j + 8],
                    lanes@[j + 16],
                    lanes@[j + 24],
                    #[trigger] v@[j],
                ),
        decreases 8 - l,
    {
        let a = ar.add(lanes[l + 16], lanes[l + 24]);
        let b = ar.add(lanes[l + 8], lanes[l]);
        let s = ar.add(a, b);
        assert(is_sum(ar, lanes@[l + 16], lanes@[l + 24], a));
        assert(is_sum(ar, lanes@[l + 8], lanes@[l as int], b));
        assert(is_sum(ar, a, b, s));
        v[l] = s;
        l += 1;
    }
    let base = fold_lanes(ar, &v);
    let x_from = x_chunks * 32;
    let w_from = w_chunks * 32;
    let n = x.len() % 32;
    let ghost xt = x@.skip(x_from as int);
    let ghost wt = w@.skip(w_from as int);
    let mut sum = base;
    let mut i: usize = 0;
    while i < n
        invariant
            i <= n,
            x_from + n == x.len(),
            w_from + n <= w.len(),
            xt == x@.skip(x_from as int),
            wt == w@.skip(w_from as int),
            bf16_tail(ar, xt, wt, base, i as int, sum),
        decreases n - i,
    {
        let w_val = bf16_u16_to_f32(ar, w[w_from + i]);
        let q = ar.mul(x[x_from + i], w_val);
        let next = ar.add(sum, q);
        proof {
            let k = i + 1;
            assert(is_product(ar, xt[k - 1], w_val, q));
            assert(is_sum(ar, sum, q, next));
            assert(bf16_tail_step(ar, sum, xt[k - 1], wt[k - 1], next));
            assert(bf16_tail(ar, xt, wt, base, k, next));
        }
        sum = next;
        i += 1;
    }
    assert(dot_bf16_steps(ar, x@, w@, lanes@, v@, base, sum));
    sum
}

// ---- Quantized weights ----

/// One step of a lane: `r` is `x * (q * d) + p`, the last two operations rounded once.
pub open spec fn q8_lane_step<T: Copy, A: Arith<T>>(
    ar: &A,
    p: T,
    x: T,
    q: i8,
    d: T,
    r: T,
) -> bool {
    exists|v: T| of_q8(ar, q, d, v) && #[trigger] is_mul_add(ar, x, v, p, r)
}

/// `r` is what lane `l` of eight holds after `n` groups of eight elements; a block of 32 holds
/// four groups.
pub open spec fn q8_lane<T: Copy, A: Arith<T>>(
    ar: &A,
    x: Seq<T>,
    w: Seq<BlockQ8_0<T>>,
    l: int,
    n: int,
    r: T,
) -> bool
    decreases n,
{
    if n <= 0 {
        of_bits(ar, ZERO_BITS, r)
    } else {
        exists|p: T|
            q8_lane(ar, x, w, l, n - 1, p) && #[trigger] q8_lane_step(
                ar,
                p,
                x[8 * (n - 1) + l],
                w[(n - 1) / 4].qs@[8 * ((n - 1) % 4) + l],
                w[(n - 1) / 4].d,
                r,
            )
    }
}

/// The lanes from which the dot product comes.
pub open spec fn dot_q8_steps<T: Copy, A: Arith<T>>(
    ar: &A,
    x: Seq<T>,
    w: Seq<BlockQ8_0<T>>,
    lanes: Seq<T>,
    r: T,
) -> bool {
    &&& lanes.len() == 8
    &&& forall|l: int| 0 <= l < 8 ==> q8_lane(ar, x, w, l, 4 * w.len() as int, #[trigger] lanes[l])
    &&& is_fold(ar, lanes, r)
}

/// `r` is the dot product of the leading elements of a row with blocks of quantized weights.
pub open spec fn is_dot_q8<T: Copy, A: Arith<T>>(
    ar: &A,
    x: Seq<T>,
    w: Seq<BlockQ8_0<T>>,
    r: T,
) -> bool {
    exists|lanes: Seq<T>| dot_q8_steps(ar, x, w, lanes, r)
}

/// The dot product of a row with blocks of quantized weights.
pub fn dot_avx2_q8<T: Copy, A: Arith<T>>(ar: &A, x: &[T], w: &[BlockQ8_0<T>]) -> (r: T)
    requires
        32 * w@.len() <= x@.len(),
    ensures
        is_dot_q8(ar, x@, w@, r),
{
    let zero = ar.from_bits(ZERO_BITS);
    let mut lanes: [T; 8] = [zero; 8];
    let mut i: usize = 0;
    assert(forall|l: int| 0 <= l < 8 ==> q8_lane(ar, x@, w@, l, 0, #[trigger] lanes@[l]));
    while i < w.len()
        invariant
            i <= w@.len(),
            32 * w.len() <= x.len(),
            forall|l: int|
                0 <= l < 8 ==> q8_lane(ar, x@, w@, l, 4 * i, #[trigger] lanes@[l]),
        decreases w@.len() - i,
    {
        let block = &w[i];
        let mut k: usize = 0;
        while k < 32
            invariant
                i < w.len(),
                k <= 32,
                *block == w@[i as int],
                32 * w.len() <= x.len(),
                forall|l: int|
                    0 <= l < k % 8 ==> q8_lane(
                        ar,
                        x@,
                        w@,
                        l,
                        4 * i + k / 8 + 1,
                        #[trigger] lanes@[l],
                    ),
                forall|l: int|
                    k % 8 <= l < 8 ==> q8_lane(
                        ar,
                        x@,
                        w@,
                        l,
                        4 * i + k / 8,
                        #[trigger] lanes@[l],
                    ),
            decreases 32 - k,
        {
            let l = k % 8;
            let p = lanes[l];
            let v = q8_to_f32(ar, block.qs[k], block.d);
            let r = ar.mul_add(x[32 * i + k], v, p);
            proof {
                let n = 4 * i + k / 8 + 1;
                assert((n - 1) / 4 == i as int);
                assert((n - 1) % 4 == k as int / 8);
                assert(8 * (n - 1) + l == 32 * i + k);
                assert(8 * ((n - 1) % 4) + l == k as int);
                assert(is_mul_add(ar, x@[32 * i + k], v, p, r));
                assert(q8_lane_step(
                    ar,
                    p,
                    x@[8 * (n - 1) + l],
                    w@[(n - 1) / 4].qs@[8 * ((n - 1) % 4) + l],
                    w@[(n - 1) / 4].d,
                    r,
                ));
                assert(q8_lane(ar, x@, w@, l as int, n, r));
            }
            lanes[l] = r;
            k += 1;
        }
        i += 1;
    }
    let r = fold_lanes(ar, &lanes);
    assert(dot_q8_steps(ar, x@, w@, lanes@, r));
    r
}

} // verus!
