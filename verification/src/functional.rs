//! What holds where the operations on scalars are functions: whatever is computed twice from the
//! same elements is the same.
use vstd::arithmetic::div_mod::lemma_fundamental_div_mod;
use vstd::prelude::*;

use crate::arith::{
    is_mul_add, is_product, is_sum, of_bf16, of_bits, of_i8, of_q8, Arith, ZERO_BITS,
};
use crate::dot::{
    bf16_lane, bf16_lane_step, bf16_tail, bf16_tail_step, dot_bf16_steps, dot_q8_steps,
    fold_steps, is_dot_bf16, is_dot_q8, is_fold, is_sum_of_four, lesser, q8_lane, q8_lane_step,
    whole,
};
use crate::linear::{is_weight_dot, slot};
use crate::project::{
    is_mlp_cell, is_mlp_mul, is_out_proj, is_out_rayon, is_row_dot, law_out_projections_agree,
    projects_rayon, projects_single, row_len, row_start, run,
};
use crate::tensor::{BlockQ8_0, Tensor, WeightData, WeightTensor};

verus! {

/// The operations give one result for the same scalars.
pub open spec fn is_functional<T: Copy, A: Arith<T>>(ar: &A) -> bool {
    &&& forall|bits: u32, r: T, s: T| #[trigger]
        of_bits(ar, bits, r) && #[trigger] of_bits(ar, bits, s) ==> r == s
    &&& forall|n: i8, r: T, s: T| #[trigger] of_i8(ar, n, r) && #[trigger] of_i8(ar, n, s) ==> r == s
    &&& forall|a: T, b: T, r: T, s: T| #[trigger]
        is_sum(ar, a, b, r) && #[trigger] is_sum(ar, a, b, s) ==> r == s
    &&& forall|a: T, b: T, r: T, s: T| #[trigger]
        is_product(ar, a, b, r) && #[trigger] is_product(ar, a, b, s) ==> r == s
    &&& forall|a: T, b: T, c: T, r: T, s: T| #[trigger]
        is_mul_add(ar, a, b, c, r) && #[trigger] is_mul_add(ar, a, b, c, s) ==> r == s
}

proof fn lemma_fold_once<T: Copy, A: Arith<T>>(ar: &A, v: Seq<T>, r: T, s: T)
    requires
        is_functional(ar),
        is_fold(ar, v, r),
        is_fold(ar, v, s),
    ensures
        r == s,
{
    let (q, h) = choose|q: Seq<T>, h: Seq<T>| fold_steps(ar, v, q, h, r);
    let (p, g) = choose|q: Seq<T>, h: Seq<T>| fold_steps(ar, v, q, h, s);
    assert forall|l: int| 0 <= l < 4 implies q[l] == p[l] by {
        assert(is_sum(ar, v[l], v[l + 4], q[l]) && is_sum(ar, v[l], v[l + 4], p[l]));
    }
    assert forall|l: int| 0 <= l < 2 implies h[l] == g[l] by {
        assert(is_sum(ar, q[l], q[l + 2], h[l]) && is_sum(ar, p[l], p[l + 2], g[l]));
    }
}

proof fn lemma_bf16_lane_once<T: Copy, A: Arith<T>>(
    ar: &A,
    x: Seq<T>,
    w: Seq<u16>,
    l: int,
    n: int,
    r: T,
    s: T,
)
    requires
        is_functional(ar),
        bf16_lane(ar, x, w, l, n, r),
        bf16_lane(ar, x, w, l, n, s),
    ensures
        r == s,
    decreases n,
{
    if n > 0 {
        let at = 32 * (n - 1) + l;
        let p = choose|p: T|
            bf16_lane(ar, x, w, l, n - 1, p) && #[trigger] bf16_lane_step(ar, p, x[at], w[at], r);
        let q = choose|p: T|
            bf16_lane(ar, x, w, l, n - 1, p) && #[trigger] bf16_lane_step(ar, p, x[at], w[at], s);
        lemma_bf16_lane_once(ar, x, w, l, n - 1, p, q);
        let u = choose|v: T| of_bf16(ar, w[at], v) && #[trigger] is_mul_add(ar, x[at], v, p, r);
        let v = choose|v: T| of_bf16(ar, w[at], v) && #[trigger] is_mul_add(ar, x[at], v, q, s);
        assert(u == v);
    }
}

proof fn lemma_bf16_tail_once<T: Copy, A: Arith<T>>(
    ar: &A,
    x: Seq<T>,
    w: Seq<u16>,
    base: T,
    n: int,
    r: T,
    s: T,
)
    requires
        is_functional(ar),
        bf16_tail(ar, x, w, base, n, r),
        bf16_tail(ar, x, w, base, n, s),
    ensures
        r == s,
    decreases n,
{
    if n > 0 {
        let at = n - 1;
        let p = choose|p: T|
            bf16_tail(ar, x, w, base, n - 1, p) && #[trigger] bf16_tail_step(
                ar,
                p,
                x[at],
                w[at],
                r,
            );
        let q = choose|p: T|
            bf16_tail(ar, x, w, base, n - 1, p) && #[trigger] bf16_tail_step(
                ar,
                p,
                x[at],
                w[at],
                s,
            );
        lemma_bf16_tail_once(ar, x, w, base, n - 1, p, q);
        let (u, a) = choose|v: T, q: T|
            of_bf16(ar, w[at], v) && #[trigger] is_product(ar, x[at], v, q) && #[trigger] is_sum(
                ar,
                p,
                q,
                r,
            );
        let (v, b) = choose|v: T, b: T|
            of_bf16(ar, w[at], v) && #[trigger] is_product(ar, x[at], v, b) && #[trigger] is_sum(
                ar,
                q,
                b,
                s,
            );
        assert(u == v);
        assert(a == b);
    }
}

/// The dot product of a row with half words is one number.
pub proof fn law_dot_of_half_words_is_one<T: Copy, A: Arith<T>>(
    ar: &A,
    x: Seq<T>,
    w: Seq<u16>,
    r: T,
    s: T,
)
    requires
        is_functional(ar),
        is_dot_bf16(ar, x, w, r),
        is_dot_bf16(ar, x, w, s),
    ensures
        r == s,
{
    let (lanes, v, base) = choose|lanes: Seq<T>, v: Seq<T>, base: T|
        dot_bf16_steps(ar, x, w, lanes, v, base, r);
    let (others, u, foot) = choose|lanes: Seq<T>, v: Seq<T>, base: T|
        dot_bf16_steps(ar, x, w, lanes, v, base, s);
    let chunks = lesser(x.len() as int / 32, w.len() as int / 32);
    assert forall|l: int| 0 <= l < 32 implies lanes[l] == others[l] by {
        lemma_bf16_lane_once(ar, x, w, l, chunks, lanes[l], others[l]);
    }
    assert forall|l: int| 0 <= l < 8 implies v[l] == u[l] by {
        assert(is_sum_of_four(ar, lanes[l], lanes[l + 8], lanes[l + 16], lanes[l + 24], v[l]));
        assert(is_sum_of_four(ar, others[l], others[l + 8], others[l + 16], others[l + 24], u[l]));
        let (a, b) = choose|a: T, b: T|
            is_sum(ar, lanes[l + 16], lanes[l + 24], a) && is_sum(ar, lanes[l + 8], lanes[l], b)
                && #[trigger] is_sum(ar, a, b, v[l]);
        let (c, d) = choose|a: T, b: T|
            is_sum(ar, lanes[l + 16], lanes[l + 24], a) && is_sum(ar, lanes[l + 8], lanes[l], b)
                && #[trigger] is_sum(ar, a, b, u[l]);
        assert(a == c && b == d);
    }
    assert(v =~= u);
    lemma_fold_once(ar, v, base, foot);
    lemma_bf16_tail_once(
        ar,
        x.skip(whole(x.len() as int, 32)),
        w.skip(whole(w.len() as int, 32)),
        base,
        x.len() as int % 32,
        r,
        s,
    );
}

proof fn lemma_q8_lane_once<T: Copy, A: Arith<T>>(
    ar: &A,
    x: Seq<T>,
    w: Seq<BlockQ8_0<T>>,
    l: int,
    n: int,
    r: T,
    s: T,
)
    requires
        is_functional(ar),
        q8_lane(ar, x, w, l, n, r),
        q8_lane(ar, x, w, l, n, s),
    ensures
        r == s,
    decreases n,
{
    if n > 0 {
        let e = x[8 * (n - 1) + l];
        let k = w[(n - 1) / 4].qs@[8 * ((n - 1) % 4) + l];
        let d = w[(n - 1) / 4].d;
        let p = choose|p: T|
            q8_lane(ar, x, w, l, n - 1, p) && #[trigger] q8_lane_step(ar, p, e, k, d, r);
        let q = choose|p: T|
            q8_lane(ar, x, w, l, n - 1, p) && #[trigger] q8_lane_step(ar, p, e, k, d, s);
        lemma_q8_lane_once(ar, x, w, l, n - 1, p, q);
        let u = choose|v: T| of_q8(ar, k, d, v) && #[trigger] is_mul_add(ar, e, v, p, r);
        let v = choose|v: T| of_q8(ar, k, d, v) && #[trigger] is_mul_add(ar, e, v, q, s);
        let a = choose|n: T| of_i8(ar, k, n) && #[trigger] is_product(ar, n, d, u);
        let b = choose|n: T| of_i8(ar, k, n) && #[trigger] is_product(ar, n, d, v);
        assert(a == b);
        assert(u == v);
    }
}

/// The dot product of a row with blocks is one number.
pub proof fn law_dot_of_blocks_is_one<T: Copy, A: Arith<T>>(
    ar: &A,
    x: Seq<T>,
    w: Seq<BlockQ8_0<T>>,
    r: T,
    s: T,
)
    requires
        is_functional(ar),
        is_dot_q8(ar, x, w, r),
        is_dot_q8(ar, x, w, s),
    ensures
        r == s,
{
    let lanes = choose|lanes: Seq<T>| dot_q8_steps(ar, x, w, lanes, r);
    let others = choose|lanes: Seq<T>| dot_q8_steps(ar, x, w, lanes, s);
    assert forall|l: int| 0 <= l < 8 implies lanes[l] == others[l] by {
        lemma_q8_lane_once(ar, x, w, l, 4 * w.len() as int, lanes[l], others[l]);
    }
    assert(lanes =~= others);
    lemma_fold_once(ar, lanes, r, s);
}

proof fn lemma_weight_dot_once<T: Copy, A: Arith<T>>(
    ar: &A,
    x: Seq<T>,
    w: WeightData<T>,
    from: int,
    to: int,
    r: T,
    s: T,
)
    requires
        is_functional(ar),
        is_weight_dot(ar, x, w, from, to, r),
        is_weight_dot(ar, x, w, from, to, s),
    ensures
        r == s,
{
    match w {
        WeightData::BF16(words) => law_dot_of_half_words_is_one(
            ar,
            x,
            words@.subrange(from, to),
            r,
            s,
        ),
        WeightData::Q8(blocks) => law_dot_of_blocks_is_one(ar, x, blocks@.subrange(from, to), r, s),
        WeightData::F32(_) => {},
    }
}

proof fn lemma_row_dot_once<T: Copy, A: Arith<T>>(
    ar: &A,
    x: Seq<T>,
    w: WeightData<T>,
    k: int,
    step: int,
    cols: int,
    len: int,
    r: T,
    s: T,
)
    requires
        is_functional(ar),
        is_row_dot(ar, x, w, k, step, cols, len, r),
        is_row_dot(ar, x, w, k, step, cols, len, s),
    ensures
        r == s,
{
    let from = row_start(w, k, step, cols);
    lemma_weight_dot_once(ar, x, w, from, from + row_len(w, cols, len), r, s);
}

proof fn lemma_projection_once<T: Copy, A: Arith<T>>(
    ar: &A,
    attn: Tensor<T>,
    o: WeightTensor<T>,
    a: Seq<T>,
    b: Seq<T>,
)
    requires
        is_functional(ar),
        a.len() == b.len(),
        projects_rayon(ar, attn, o, a),
        projects_rayon(ar, attn, o, b),
    ensures
        a == b,
{
    let total = attn.shape@[0] * attn.shape@[1];
    assert forall|p: int| 0 <= p < a.len() implies a[p] == b[p] by {
        if p < total {
            assert(is_out_rayon(ar, attn, o, p, a[p]));
            assert(is_out_rayon(ar, attn, o, p, b[p]));
            let k = p % o.shape@[0] as int;
            let cols = o.shape@[1] as int;
            let x = run(attn.data@, p / o.shape@[0] as int, attn.strides@[0] as int, cols);
            lemma_row_dot_once(
                ar,
                x,
                o.data,
                k,
                o.strides@[0] as int,
                cols,
                cols,
                a[p],
                b[p],
            );
        } else {
            assert(of_bits(ar, ZERO_BITS, a[p]) && of_bits(ar, ZERO_BITS, b[p]));
        }
    }
    assert(a =~= b);
}

/// On one thread and on many threads the output projection by a square matrix leaves the same
/// tensor.
pub proof fn law_out_projections_are_equal<T: Copy, A: Arith<T>>(
    ar: &A,
    attn: Tensor<T>,
    o: WeightTensor<T>,
    before: Tensor<T>,
    single: Tensor<T>,
    rayon: Tensor<T>,
)
    requires
        is_functional(ar),
        attn.shape@.len() == 2,
        o.shape@ == seq![attn.shape@[1], attn.shape@[1]],
        !(o.data is F32),
        attn.shape@[0] * attn.shape@[1] <= before.data@.len(),
        single.wf(),
        single.shape@ == seq![attn.shape@[0], attn.shape@[1]],
        single.data@.len() == before.data@.len(),
        projects_single(ar, attn, o, single.data@),
        is_out_proj(ar, attn, o, before, rayon),
    ensures
        rayon.data@ == single.data@,
        rayon.shape@ == single.shape@,
        rayon.strides@ == single.strides@,
{
    law_out_projections_agree(ar, attn, o, single.data@);
    lemma_projection_once(ar, attn, o, single.data@, rayon.data@);
    assert(rayon.strides@ =~= single.strides@);
}

/// A feed-forward layer leaves the same tensor whenever it is computed, on one thread or on many.
pub proof fn law_mlp_products_are_equal<T: Copy, A: Arith<T>>(
    ar: &A,
    x: Tensor<T>,
    weight: WeightTensor<T>,
    before: Tensor<T>,
    a: Tensor<T>,
    b: Tensor<T>,
)
    requires
        is_functional(ar),
        is_mlp_mul(ar, x, weight, before, a),
        is_mlp_mul(ar, x, weight, before, b),
    ensures
        a.data@ == b.data@,
        a.shape@ == b.shape@,
        a.strides@ == b.strides@,
{
    let rows = x.shape@[0] as int;
    let outs = weight.shape@[0] as int;
    assert forall|p: int| 0 <= p < a.data@.len() implies a.data@[p] == b.data@[p] by {
        if p < rows * outs {
            assert(outs > 0) by (nonlinear_arith)
                requires
                    0 <= p < rows * outs,
                    0 <= rows,
                    0 <= outs,
            ;
            lemma_fundamental_div_mod(p, outs);
            let i = p / outs;
            let k = p % outs;
            assert(0 <= i < rows && outs * i == i * outs) by (nonlinear_arith)
                requires
                    p == outs * i + k,
                    0 <= k < outs,
                    0 <= p < rows * outs,
            ;
            assert(p == slot(i, outs, k));
            assert(is_mlp_cell(ar, x, weight, i, k, a.data@[p]));
            assert(is_mlp_cell(ar, x, weight, i, k, b.data@[p]));
            let cols = weight.shape@[1] as int;
            lemma_row_dot_once(
                ar,
                run(x.data@, i, x.strides@[0] as int, cols * x.strides@[1]),
                weight.data,
                k,
                weight.strides@[0] as int,
                cols,
                cols * weight.strides@[1],
                a.data@[p],
                b.data@[p],
            );
        } else {
            assert(a.data@[p] == before.data@[p] && b.data@[p] == before.data@[p]);
        }
    }
    assert(a.data@ =~= b.data@);
    assert(a.strides@ =~= b.strides@);
}

} // verus!
