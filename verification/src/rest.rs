//! What the kernels leave alone: elements for which there is no output stay as they are.
use vstd::prelude::*;

use crate::arith::Arith;
use crate::attention::{are_scores, is_attn_out, is_softmax_of, lemma_flatten, lemma_strides_3};
use crate::linear::{is_linear_proj, is_silu_mul, slot};
use crate::norm::lemma_row_bounds;
use crate::project::is_mlp_mul;
use crate::rope::{at3, is_rope};
use crate::tensor::{lemma_product_3, Tensor, WeightTensor};

verus! {

/// A projection leaves what stands behind its rows.
pub proof fn law_projection_leaves_the_rest<T: Copy, A: Arith<T>>(
    ar: &A,
    input: Tensor<T>,
    weight: WeightTensor<T>,
    bias: WeightTensor<T>,
    before: Tensor<T>,
    after: Tensor<T>,
    p: int,
)
    requires
        is_linear_proj(ar, input, weight, bias, before, after),
        weight.shape@[0] == before.strides@[0],
        input.shape@[0] * weight.shape@[0] <= p < before.data@.len(),
    ensures
        after.data@[p] == before.data@[p],
{
    let rows = input.shape@[0] as int;
    let outs = weight.shape@[0] as int;
    assert forall|i: int, j: int| 0 <= i < rows && 0 <= j < outs implies p != #[trigger] slot(
        i,
        before.strides@[0] as int,
        j,
    ) by {
        lemma_row_bounds(i, rows, outs);
    }
    assert(0 <= rows * outs) by (nonlinear_arith)
        requires
            0 <= rows,
            0 <= outs,
    ;
}

/// A feed-forward layer leaves what stands behind its rows.
pub proof fn law_feed_forward_leaves_the_rest<T: Copy, A: Arith<T>>(
    ar: &A,
    x: Tensor<T>,
    weight: WeightTensor<T>,
    before: Tensor<T>,
    after: Tensor<T>,
    p: int,
)
    requires
        is_mlp_mul(ar, x, weight, before, after),
        x.shape@[0] * weight.shape@[0] <= p < before.data@.len(),
    ensures
        after.data@[p] == before.data@[p],
{
}

/// The product with an activation leaves what has no partner.
pub proof fn law_silu_leaves_the_rest<T: Copy, A: Arith<T>>(
    ar: &A,
    before: Tensor<T>,
    up: Tensor<T>,
    after: Tensor<T>,
    p: int,
)
    requires
        is_silu_mul(ar, before, up, after),
        up.data@.len() <= p < before.data@.len(),
    ensures
        after.data@[p] == before.data@[p],
{
}

/// Scores leave what stands behind them: there is one for each head, query and key.
pub proof fn law_scores_leave_the_rest<T: Copy, A: Arith<T>>(
    ar: &A,
    q: Tensor<T>,
    k: Tensor<T>,
    kv_group: usize,
    valid_kv_len: usize,
    current_pos: usize,
    before: Tensor<T>,
    after: Tensor<T>,
    p: int,
)
    requires
        are_scores(ar, q, k, kv_group, valid_kv_len, current_pos, before, after),
        q.shape@[1] * (q.shape@[0] * valid_kv_len) <= p < before.data@.len(),
    ensures
        after.data@[p] == before.data@[p],
{
    lemma_product_3(after.shape@);
}

/// Weighted sums leave what stands behind them: there is one for each query, head and element.
pub proof fn law_attention_leaves_the_rest<T: Copy, A: Arith<T>>(
    ar: &A,
    s: Tensor<T>,
    v: Tensor<T>,
    kv_group: usize,
    before: Tensor<T>,
    after: Tensor<T>,
    p: int,
)
    requires
        is_attn_out(ar, s, v, kv_group, before, after),
        s.shape@[1] * (s.shape@[0] * v.shape@[2]) <= p < before.data@.len(),
    ensures
        after.data@[p] == before.data@[p],
{
    lemma_product_3(after.shape@);
}

/// Shares leave what stands behind the rows that they replace.
pub proof fn law_softmax_leaves_the_rest<T: Copy, A: Arith<T>>(
    ar: &A,
    before: Tensor<T>,
    after: Tensor<T>,
    p: int,
)
    requires
        is_softmax_of(ar, before, after),
        before.wf(),
        before.shape@.len() == 3,
        before.shape@[0] * (before.shape@[1] * before.shape@[2]) <= p < before.data@.len(),
    ensures
        after.data@[p] == before.data@[p],
{
    let shape = before.shape@;
    lemma_strides_3(shape, before.strides@);
    assert forall|a: int, b: int, c: int|
        0 <= a < shape[0] && 0 <= b < shape[1] && 0 <= c < shape[2] implies p != #[trigger] at3(
        before.strides@,
        a,
        b,
        c,
    ) by {
        lemma_flatten(a, b, c, shape[0] as int, shape[1] as int, shape[2] as int);
    }
    let n = shape[0] as int;
    let m = shape[1] as int;
    let k = shape[2] as int;
    assert(0 <= n * (m * k)) by (nonlinear_arith)
        requires
            0 <= n,
            0 <= m,
            0 <= k,
    ;
}

/// Turning leaves what stands behind the heads, and where a head has an odd number of elements, its
/// last one.
pub proof fn law_rope_leaves_the_rest<T: Copy, A: Arith<T>>(
    ar: &A,
    theta: T,
    current_pos: usize,
    before: Tensor<T>,
    after: Tensor<T>,
    p: int,
)
    requires
        is_rope(ar, theta, current_pos, before, after),
        before.wf(),
        before.shape@.len() == 3,
        0 <= p < before.data@.len(),
        ({
            let heads = before.shape@[0] * before.shape@[1];
            let dim = before.shape@[2] as int;
            p >= heads * dim || (dim % 2 == 1 && p % dim == dim - 1)
        }),
    ensures
        after.data@[p] == before.data@[p],
{
    let shape = before.shape@;
    let rows = shape[0] as int;
    let heads = shape[1] as int;
    let dim = shape[2] as int;
    let half = dim / 2;
    lemma_strides_3(shape, before.strides@);
    let strides = before.strides@;
    assert forall|pos: int, h: int, d: int|
        0 <= pos < shape[0] && 0 <= h < shape[1] && 0 <= d < half implies p != #[trigger] at3(
        strides,
        pos,
        h,
        d,
    ) && p != at3(strides, pos, h, d + half) by {
        lemma_not_turned(rows, heads, dim, pos, h, d, p);
        lemma_not_turned(rows, heads, dim, pos, h, d + half, p);
        assert(at3(strides, pos, h, d + half) == pos * (heads * dim) + h * dim + (d + half));
    }
    assert(after.data@[p] == before.data@[p]);
}

proof fn lemma_not_turned(
    rows: int,
    heads: int,
    dim: int,
    pos: int,
    h: int,
    d: int,
    p: int,
)
    requires
        0 <= pos < rows,
        0 <= h < heads,
        0 <= d < dim / 2 * 2,
        p >= rows * heads * dim || (dim % 2 == 1 && p % dim == dim - 1),
    ensures
        p != pos * (heads * dim) + h * dim + d,
{
    let at = pos * (heads * dim) + h * dim + d;
    if p == at {
        let n = pos * heads + h;
        assert(at == n * dim + d) by (nonlinear_arith)
            requires
                at == pos * (heads * dim) + h * dim + d,
                n == pos * heads + h,
        ;
        lemma_row_bounds(pos, rows, heads);
        lemma_row_bounds(n, rows * heads, dim);
        if dim % 2 == 1 && p % dim == dim - 1 {
            assert(p % dim == d) by (nonlinear_arith)
                requires
                    p == n * dim + d,
                    0 <= d < dim,
            ;
        }
    }
}

} // verus!
