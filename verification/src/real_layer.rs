//! What a layer and the head of a model compute over the reals: which weights meet which rows.
use vstd::arithmetic::div_mod::lemma_fundamental_div_mod;
use vstd::prelude::*;

use crate::arith::Arith;
use crate::attention::lemma_strides_3;
use crate::forward::{
    head_steps, is_head, is_layer, passes_layer, LayerInput, LayerState, LayerTrace,
};
use crate::linear::is_linear_proj;
use crate::model::{
    buffers_have_room, cache_fits, dims_fit, head_dim_of, is_blank, kv_group_of, kv_width,
    layer_fits, lemma_strides_2, matrix_fits, model_fits, rows_fit, LayerWeights, Model,
};
use crate::norm::{is_rmsnorm, lemma_row_bounds};
use crate::project::is_mlp_mul;
use crate::real_dot::{
    bias_value, holds_matrix, law_feed_forward_layer, law_linear_projection, law_output_projection,
    lemma_sum_same,
};
use crate::real_kernels::{angle_of, law_residual, law_rope, law_silu};
use crate::real_norm::{holds_row, is_normalised, law_norm, mean_square};
use crate::reals::{is_number, lemma_constants, reads, row_is_numbers, sum, weight_value, Reading};
use crate::rope::is_rope;
use crate::session::Config;
use crate::tensor::{lemma_product_2, Tensor, WeightData, WeightTensor};

verus! {

// ---- Rows ----

/// The numbers of the row that begins at `from`.
pub open spec fn row_of<T>(m: Reading<T>, data: Seq<T>, from: int) -> spec_fn(int) -> real {
    |d: int| m.of(data[from + d])
}

/// The numbers of two rows, added.
pub open spec fn rows_added<T>(
    m: Reading<T>,
    a: Seq<T>,
    b: Seq<T>,
    from: int,
) -> spec_fn(int) -> real {
    |d: int| m.of(a[from + d]) + m.of(b[from + d])
}

/// The factor by which a norm multiplies a row: it is positive, and with it the mean of the squares
/// of the row, plus `epsilon`, becomes one.
pub open spec fn is_factor(
    row: spec_fn(int) -> real,
    h: int,
    epsilon: real,
    factor: real,
) -> bool {
    &&& factor > 0real
    &&& factor * factor * (sum(|d: int| row(d) * row(d), h) / (h as real) + epsilon) == 1real
}

/// The sum of the products of a row, the weights of a norm, and row `j` of a matrix.
pub open spec fn meets<T>(
    m: Reading<T>,
    row: spec_fn(int) -> real,
    h: int,
    norm: WeightData<T>,
    w: WeightData<T>,
    j: int,
) -> real {
    sum(|d: int| row(d) * weight_value(m, norm, d) * weight_value(m, w, j * h + d), h)
}

proof fn lemma_sum_not_negative(f: spec_fn(int) -> real, n: int)
    requires
        forall|d: int| 0 <= d < n ==> #[trigger] f(d) >= 0real,
    ensures
        sum(f, n) >= 0real,
    decreases n,
{
    if n > 0 {
        lemma_sum_not_negative(f, n - 1);
    }
}

proof fn lemma_sum_times(f: spec_fn(int) -> real, g: spec_fn(int) -> real, k: real, n: int)
    requires
        forall|d: int| 0 <= d < n ==> #[trigger] g(d) == k * f(d),
    ensures
        sum(g, n) == k * sum(f, n),
    decreases n,
{
    if n > 0 {
        lemma_sum_times(f, g, k, n - 1);
        let a = sum(f, n - 1);
        let b = f(n - 1);
        assert(k * (a + b) == k * a + k * b) by (nonlinear_arith);
    } else {
        assert(k * 0real == 0real) by (nonlinear_arith);
    }
}

/// A row of numbers is normalised by a factor that is the same for each of its elements.
proof fn lemma_normalised<T: Copy, A: Arith<T>>(
    ar: &A,
    m: Reading<T>,
    input: Tensor<T>,
    norm: WeightTensor<T>,
    h: usize,
    epsilon: T,
    out: Tensor<T>,
    t: int,
    row: spec_fn(int) -> real,
) -> (factor: real)
    requires
        reads(ar, m),
        is_rmsnorm(ar, input, norm, h, epsilon, out),
        row_is_numbers(m, input.data@, t * h, h as int),
        forall|d: int| 0 <= d < h ==> #[trigger] row(d) == m.of(input.data@[t * h + d]),
        !m.is_low(epsilon),
        m.of(epsilon) > 0real,
        holds_row(m, norm.data, h as int),
        0 < h,
        0 <= t,
        (t + 1) * h <= input.data@.len(),
    ensures
        is_factor(row, h as int, m.of(epsilon), factor),
        is_normalised(m, input.data@, norm.data, epsilon, t * h, h as int, factor, out.data@),
        out.data@.len() == input.data@.len(),
{
    let n = h as int;
    let f = |d: int| m.of(input.data@[t * n + d]) * m.of(input.data@[t * n + d]);
    let g = |d: int| row(d) * row(d);
    assert forall|d: int| 0 <= d < n implies #[trigger] f(d) >= 0real by {
        let x = m.of(input.data@[t * n + d]);
        assert(x * x >= 0real) by (nonlinear_arith);
    }
    lemma_sum_not_negative(f, n);
    let total = sum(f, n);
    let size = n as real;
    assert(total / size >= 0real) by (nonlinear_arith)
        requires
            total >= 0real,
            size > 0real,
    ;
    assert(mean_square(m, input.data@, t * n, n, epsilon) == total / size + m.of(epsilon));
    law_norm(ar, m, input, norm, h, epsilon, out, t);
    let factor = choose|factor: real| #[trigger]
        is_normalised(m, input.data@, norm.data, epsilon, t * n, n, factor, out.data@);
    assert forall|d: int| 0 <= d < n implies #[trigger] f(d) == g(d) by {
        assert(row(d) == m.of(input.data@[t * n + d]));
    }
    lemma_sum_same(f, g, n);
    factor
}

/// A matrix meets a normalised row as it meets the row itself, times the factor of the norm.
proof fn lemma_meets<T>(
    m: Reading<T>,
    data: Seq<T>,
    norm: WeightData<T>,
    epsilon: T,
    from: int,
    h: int,
    factor: real,
    out: Seq<T>,
    w: WeightData<T>,
    j: int,
    row: spec_fn(int) -> real,
)
    requires
        is_normalised(m, data, norm, epsilon, from, h, factor, out),
        forall|d: int| 0 <= d < h ==> #[trigger] row(d) == m.of(data[from + d]),
    ensures
        sum(|d: int| m.of(out[from + d]) * weight_value(m, w, j * h + d), h) == factor * meets(
            m,
            row,
            h,
            norm,
            w,
            j,
        ),
        row_is_numbers(m, out, from, h),
{
    let f = |d: int| row(d) * weight_value(m, norm, d) * weight_value(m, w, j * h + d);
    let g = |d: int| m.of(out[from + d]) * weight_value(m, w, j * h + d);
    assert forall|d: int| 0 <= d < h implies #[trigger] g(d) == factor * f(d) by {
        let p = from + d;
        assert(!m.is_low(out[p]));
        let x = row(d);
        let a = weight_value(m, norm, d);
        let b = weight_value(m, w, j * h + d);
        assert(m.of(out[p]) == x * a * factor);
        assert((x * a * factor) * b == factor * (x * a * b)) by (nonlinear_arith);
    }
    lemma_sum_times(f, g, factor, h);
}

/// The heads make up a row, and where the key-value heads can be shared evenly each of them serves
/// as many heads: times that number their keys are as long as a row.
pub proof fn law_heads_share_evenly(c: Config)
    requires
        dims_fit(c),
        c.num_attention_heads % c.num_key_value_heads == 0,
    ensures
        c.num_attention_heads * head_dim_of(c) == c.hidden_dim,
        kv_group_of(c) * c.num_key_value_heads == c.num_attention_heads,
        kv_group_of(c) * kv_width(c) == c.hidden_dim,
{
    let h = c.num_attention_heads as int;
    let k = c.num_key_value_heads as int;
    let g = kv_group_of(c);
    let d = head_dim_of(c);
    lemma_fundamental_div_mod(h, k);
    assert(g * k == h) by (nonlinear_arith)
        requires
            h == k * g,
    ;
    assert(g * (k * d) == h * d) by (nonlinear_arith)
        requires
            g * k == h,
    ;
}

/// A tensor that is blank has `len` elements, each of them zero.
pub proof fn law_blank_is_zero<T: Copy, A: Arith<T>>(
    ar: &A,
    m: Reading<T>,
    len: int,
    shape: Seq<usize>,
    t: Tensor<T>,
    p: int,
)
    requires
        reads(ar, m),
        is_blank(ar, len, shape, t),
        0 <= p < len,
    ensures
        t.data@.len() == len,
        t.shape@ == shape,
        !m.is_low(t.data@[p]),
        m.of(t.data@[p]) == 0real,
{
    lemma_constants();
}

// ---- What a layer is given ----

/// The weights, the keys and values and the tensors of a step go with the dimensions.
pub open spec fn is_ready<T>(
    c: Config,
    w: LayerWeights<T>,
    i: LayerInput<T>,
    before: LayerState<T>,
) -> bool {
    &&& dims_fit(c)
    &&& layer_fits(c, w)
    &&& cache_fits(c, before.k_cache)
    &&& cache_fits(c, before.v_cache)
    &&& rows_fit(c, before.buffers.x, i.seq as int)
    &&& buffers_have_room(c, before.buffers, i.seq as int)
    &&& i.seq > 0
    &&& i.current_pos + i.seq <= 2048
}

/// Row `t` of a step holds numbers, and so do the weights of the norm in front of it.
pub open spec fn row_is_given<T>(
    m: Reading<T>,
    c: Config,
    norm: WeightTensor<T>,
    i: LayerInput<T>,
    data: Seq<T>,
    t: int,
) -> bool {
    &&& 0 <= t < i.seq
    &&& row_is_numbers(m, data, t * c.hidden_dim, c.hidden_dim as int)
    &&& holds_row(m, norm.data, c.hidden_dim as int)
    &&& !m.is_low(i.epsilon)
    &&& m.of(i.epsilon) > 0real
}

/// A projection has weights and a bias for `rows` outputs, all of them numbers.
pub open spec fn holds_projection<T>(
    m: Reading<T>,
    w: WeightTensor<T>,
    b: WeightTensor<T>,
    rows: int,
    cols: int,
) -> bool {
    &&& holds_matrix(m, w.data, rows, cols)
    &&& forall|j: int| 0 <= j < rows ==> #[trigger] is_number(m, b.data, j)
}

pub(crate) proof fn lemma_head_dim(c: Config)
    requires
        dims_fit(c),
    ensures
        0 < head_dim_of(c) <= c.hidden_dim,
        (head_dim_of(c) as usize) as int == head_dim_of(c),
        0 < kv_group_of(c) <= c.num_attention_heads,
        (kv_group_of(c) as usize) as int == kv_group_of(c),
        0 < kv_width(c),
{
    let n = c.hidden_dim as int;
    let h = c.num_attention_heads as int;
    let k = c.num_key_value_heads as int;
    let d = head_dim_of(c);
    assert(0 < d <= n) by (nonlinear_arith)
        requires
            d == n / h,
            n == h * d,
            h > 0,
            n > 0,
    ;
    assert(h / k <= h) by (nonlinear_arith)
        requires
            h > 0,
            k > 0,
    ;
    assert(0 < k * d) by (nonlinear_arith)
        requires
            0 < k,
            0 < d,
    ;
}

/// Output `j` of a projection of row `t` behind a norm.
proof fn lemma_projected<T: Copy, A: Arith<T>>(
    ar: &A,
    m: Reading<T>,
    c: Config,
    i: LayerInput<T>,
    x: Tensor<T>,
    norm: WeightTensor<T>,
    normed: Tensor<T>,
    w: WeightTensor<T>,
    b: WeightTensor<T>,
    shaped: Tensor<T>,
    out: Tensor<T>,
    rows: int,
    t: int,
    j: int,
    factor: real,
)
    requires
        reads(ar, m),
        rows_fit(c, x, i.seq as int),
        normed.shape@ == x.shape@,
        normed.data@.len() == x.data@.len(),
        is_normalised(
            m,
            x.data@,
            norm.data,
            i.epsilon,
            t * c.hidden_dim,
            c.hidden_dim as int,
            factor,
            normed.data@,
        ),
        is_linear_proj(ar, normed, w, b, shaped, out),
        matrix_fits(w, rows, c.hidden_dim as int),
        !(b.data is Q8),
        holds_projection(m, w, b, rows, c.hidden_dim as int),
        shaped.strides@[0] == rows,
        0 <= t < i.seq,
        0 <= j < rows,
    ensures
        !m.is_low(out.data@[t * rows + j]),
        m.of(out.data@[t * rows + j]) == factor * meets(
            m,
            row_of(m, x.data@, t * c.hidden_dim),
            c.hidden_dim as int,
            norm.data,
            w.data,
            j,
        ) + bias_value(m, b.data, j),
{
    let h = c.hidden_dim as int;
    let row = row_of(m, x.data@, t * h);
    lemma_meets(
        m,
        x.data@,
        norm.data,
        i.epsilon,
        t * h,
        h,
        factor,
        normed.data@,
        w.data,
        j,
        row,
    );
    assert(is_number(m, b.data, j));
    law_linear_projection(ar, m, normed, w, b, shaped, out, t, j);
}

// ---- Values, keys and queries ----

/// The values of a layer are the projection of its normalised rows by the weights for values:
/// value `j` of row `t` is the sum of the products of the row, the weights of the norm and row `j`
/// of these weights, times the factor of the norm, plus bias `j`.
pub proof fn law_layer_values<T: Copy, A: Arith<T>>(
    ar: &A,
    m: Reading<T>,
    c: Config,
    w: LayerWeights<T>,
    i: LayerInput<T>,
    before: LayerState<T>,
    after: LayerState<T>,
    t: int,
    j: int,
)
    requires
        reads(ar, m),
        is_ready(c, w, i, before),
        passes_layer(ar, c, w, i, before, after),
        row_is_given(m, c, w.input_layernorm, i, before.buffers.x.data@, t),
        holds_projection(m, w.v_weight, w.v_bias, kv_width(c), c.hidden_dim as int),
        0 <= j < kv_width(c),
    ensures
        exists|factor: real|
            {
                let row = row_of(m, before.buffers.x.data@, t * c.hidden_dim);
                let h = c.hidden_dim as int;
                let r = after.buffers.v_buf.data@[t * kv_width(c) + j];
                &&& #[trigger] is_factor(
                    row_of(m, before.buffers.x.data@, t * c.hidden_dim),
                    c.hidden_dim as int,
                    m.of(i.epsilon),
                    factor,
                )
                &&& !m.is_low(r)
                &&& m.of(r) == factor * meets(
                    m,
                    row,
                    h,
                    w.input_layernorm.data,
                    w.v_weight.data,
                    j,
                ) + bias_value(m, w.v_bias.data, j)
            },
{
    let tr = choose|tr: LayerTrace<T>| #[trigger] is_layer(ar, c, w, i, tr, before, after);
    let x = before.buffers.x;
    let h = c.hidden_dim as int;
    lemma_head_dim(c);
    lemma_row_bounds(t, i.seq as int, h);
    let factor = lemma_normalised(
        ar,
        m,
        x,
        w.input_layernorm,
        c.hidden_dim,
        i.epsilon,
        tr.normed,
        t,
        row_of(m, x.data@, t * h),
    );
    lemma_strides_3(tr.v_shaped.shape@, tr.v_shaped.strides@);
    lemma_projected(
        ar,
        m,
        c,
        i,
        x,
        w.input_layernorm,
        tr.normed,
        w.v_weight,
        w.v_bias,
        tr.v_shaped,
        after.buffers.v_buf,
        kv_width(c),
        t,
        j,
        factor,
    );
}

/// The numbers `x1` and `x2`, turned by an angle, are `y1` and `y2`.
pub open spec fn turns<T>(
    m: Reading<T>,
    angle: real,
    x1: real,
    x2: real,
    y1: real,
    y2: real,
) -> bool {
    &&& y1 == x1 * (m.cos)(angle) - x2 * (m.sin)(angle)
    &&& y2 == x1 * (m.sin)(angle) + x2 * (m.cos)(angle)
}

/// What row `t` gives in a projection behind a norm with this factor.
pub open spec fn projected<T>(
    m: Reading<T>,
    c: Config,
    data: Seq<T>,
    norm: WeightTensor<T>,
    w: WeightTensor<T>,
    b: WeightTensor<T>,
    factor: real,
    t: int,
    j: int,
) -> real {
    factor * meets(
        m,
        row_of(m, data, t * c.hidden_dim),
        c.hidden_dim as int,
        norm.data,
        w.data,
        j,
    ) + bias_value(m, b.data, j)
}

/// Elements `d` and `d + dim / 2` of a head of row `t`, projected behind a norm and turned by the
/// angle of the row's position.
proof fn lemma_turned<T: Copy, A: Arith<T>>(
    ar: &A,
    m: Reading<T>,
    c: Config,
    i: LayerInput<T>,
    x: Tensor<T>,
    norm: WeightTensor<T>,
    normed: Tensor<T>,
    w: WeightTensor<T>,
    b: WeightTensor<T>,
    shaped: Tensor<T>,
    flat: Tensor<T>,
    out: Tensor<T>,
    heads: usize,
    t: int,
    g: int,
    d: int,
    factor: real,
)
    requires
        reads(ar, m),
        dims_fit(c),
        rows_fit(c, x, i.seq as int),
        normed.shape@ == x.shape@,
        normed.data@.len() == x.data@.len(),
        is_normalised(
            m,
            x.data@,
            norm.data,
            i.epsilon,
            t * c.hidden_dim,
            c.hidden_dim as int,
            factor,
            normed.data@,
        ),
        shaped.wf(),
        shaped.shape@ == seq![i.seq, heads, head_dim_of(c) as usize],
        is_linear_proj(ar, normed, w, b, shaped, flat),
        is_rope(ar, i.rope_theta, i.current_pos, flat, out),
        matrix_fits(w, heads * head_dim_of(c), c.hidden_dim as int),
        !(b.data is Q8),
        holds_projection(m, w, b, heads * head_dim_of(c), c.hidden_dim as int),
        0 <= t < i.seq,
        0 <= g < heads,
        0 <= d < head_dim_of(c) / 2,
        i.current_pos + i.seq <= 2048,
        !m.is_low(i.rope_theta),
        m.of(i.rope_theta) > 0real,
    ensures
        ({
            let dim = head_dim_of(c);
            let at = t * (heads * dim) + g * dim + d;
            let j = g * dim + d;
            &&& !m.is_low(out.data@[at])
            &&& !m.is_low(out.data@[at + dim / 2])
            &&& turns(
                m,
                angle_of(m, m.of(i.rope_theta), dim, d, i.current_pos + t),
                projected(m, c, x.data@, norm, w, b, factor, t, j),
                projected(m, c, x.data@, norm, w, b, factor, t, j + dim / 2),
                m.of(out.data@[at]),
                m.of(out.data@[at + dim / 2]),
            )
        }),
{
    let dim = head_dim_of(c);
    let rows = heads * dim;
    let j = g * dim + d;
    lemma_head_dim(c);
    lemma_strides_3(shaped.shape@, shaped.strides@);
    lemma_row_bounds(g, heads as int, dim);
    lemma_projected(ar, m, c, i, x, norm, normed, w, b, shaped, flat, rows, t, j, factor);
    lemma_projected(
        ar,
        m,
        c,
        i,
        x,
        norm,
        normed,
        w,
        b,
        shaped,
        flat,
        rows,
        t,
        j + dim / 2,
        factor,
    );
    assert(d * flat.strides@[2] == d && (d + dim / 2) * flat.strides@[2] == d + dim / 2)
        by (nonlinear_arith)
        requires
            flat.strides@[2] == 1,
    ;
    law_rope(ar, m, i.rope_theta, i.current_pos, flat, out, t, g, d);
}

/// The keys of a layer are the projection of its normalised rows by the weights for keys, in which
/// the elements `d` and `d + dim / 2` of each head are turned by the angle of their position.
pub proof fn law_layer_keys<T: Copy, A: Arith<T>>(
    ar: &A,
    m: Reading<T>,
    c: Config,
    w: LayerWeights<T>,
    i: LayerInput<T>,
    before: LayerState<T>,
    after: LayerState<T>,
    t: int,
    g: int,
    d: int,
)
    requires
        reads(ar, m),
        is_ready(c, w, i, before),
        passes_layer(ar, c, w, i, before, after),
        row_is_given(m, c, w.input_layernorm, i, before.buffers.x.data@, t),
        holds_projection(m, w.k_weight, w.k_bias, kv_width(c), c.hidden_dim as int),
        !m.is_low(i.rope_theta),
        m.of(i.rope_theta) > 0real,
        0 <= g < c.num_key_value_heads,
        0 <= d < head_dim_of(c) / 2,
    ensures
        exists|factor: real|
            {
                let dim = c.hidden_dim as int / c.num_attention_heads as int;
                let at = t * (c.num_key_value_heads * dim) + g * dim + d;
                let k = after.buffers.k_buf.data@;
                let x = before.buffers.x.data@;
                let norm = w.input_layernorm;
                &&& #[trigger] is_factor(
                    row_of(m, before.buffers.x.data@, t * c.hidden_dim),
                    c.hidden_dim as int,
                    m.of(i.epsilon),
                    factor,
                )
                &&& !m.is_low(k[at])
                &&& !m.is_low(k[at + dim / 2])
                &&& turns(
                    m,
                    angle_of(m, m.of(i.rope_theta), dim, d, i.current_pos + t),
                    projected(m, c, x, norm, w.k_weight, w.k_bias, factor, t, g * dim + d),
                    projected(
                        m,
                        c,
                        x,
                        norm,
                        w.k_weight,
                        w.k_bias,
                        factor,
                        t,
                        g * dim + d + dim / 2,
                    ),
                    m.of(k[at]),
                    m.of(k[at + dim / 2]),
                )
            },
{
    let tr = choose|tr: LayerTrace<T>| #[trigger] is_layer(ar, c, w, i, tr, before, after);
    let x = before.buffers.x;
    let h = c.hidden_dim as int;
    lemma_head_dim(c);
    lemma_row_bounds(t, i.seq as int, h);
    let factor = lemma_normalised(
        ar,
        m,
        x,
        w.input_layernorm,
        c.hidden_dim,
        i.epsilon,
        tr.normed,
        t,
        row_of(m, x.data@, t * h),
    );
    lemma_turned(
        ar,
        m,
        c,
        i,
        x,
        w.input_layernorm,
        tr.normed,
        w.k_weight,
        w.k_bias,
        tr.k_shaped,
        tr.k_projected,
        after.buffers.k_buf,
        c.num_key_value_heads,
        t,
        g,
        d,
        factor,
    );
}

/// The queries of a layer are the projection of its normalised rows by the weights for queries, in
/// which the elements `d` and `d + dim / 2` of each head are turned by the angle of their position.
pub proof fn law_layer_queries<T: Copy, A: Arith<T>>(
    ar: &A,
    m: Reading<T>,
    c: Config,
    w: LayerWeights<T>,
    i: LayerInput<T>,
    before: LayerState<T>,
    after: LayerState<T>,
    t: int,
    g: int,
    d: int,
)
    requires
        reads(ar, m),
        is_ready(c, w, i, before),
        passes_layer(ar, c, w, i, before, after),
        row_is_given(m, c, w.input_layernorm, i, before.buffers.x.data@, t),
        holds_projection(m, w.q_weight, w.q_bias, c.hidden_dim as int, c.hidden_dim as int),
        !m.is_low(i.rope_theta),
        m.of(i.rope_theta) > 0real,
        0 <= g < c.num_attention_heads,
        0 <= d < head_dim_of(c) / 2,
    ensures
        exists|factor: real|
            {
                let dim = c.hidden_dim as int / c.num_attention_heads as int;
                let at = t * c.hidden_dim + g * dim + d;
                let q = after.buffers.q_buf.data@;
                let x = before.buffers.x.data@;
                let norm = w.input_layernorm;
                &&& #[trigger] is_factor(
                    row_of(m, before.buffers.x.data@, t * c.hidden_dim),
                    c.hidden_dim as int,
                    m.of(i.epsilon),
                    factor,
                )
                &&& !m.is_low(q[at])
                &&& !m.is_low(q[at + dim / 2])
                &&& turns(
                    m,
                    angle_of(m, m.of(i.rope_theta), dim, d, i.current_pos + t),
                    projected(m, c, x, norm, w.q_weight, w.q_bias, factor, t, g * dim + d),
                    projected(
                        m,
                        c,
                        x,
                        norm,
                        w.q_weight,
                        w.q_bias,
                        factor,
                        t,
                        g * dim + d + dim / 2,
                    ),
                    m.of(q[at]),
                    m.of(q[at + dim / 2]),
                )
            },
{
    let tr = choose|tr: LayerTrace<T>| #[trigger] is_layer(ar, c, w, i, tr, before, after);
    let x = before.buffers.x;
    let h = c.hidden_dim as int;
    lemma_head_dim(c);
    lemma_row_bounds(t, i.seq as int, h);
    let factor = lemma_normalised(
        ar,
        m,
        x,
        w.input_layernorm,
        c.hidden_dim,
        i.epsilon,
        tr.normed,
        t,
        row_of(m, x.data@, t * h),
    );
    lemma_turned(
        ar,
        m,
        c,
        i,
        x,
        w.input_layernorm,
        tr.normed,
        w.q_weight,
        w.q_bias,
        tr.q_shaped,
        tr.q_projected,
        after.buffers.q_buf,
        c.num_attention_heads,
        t,
        g,
        d,
        factor,
    );
}

// ---- What comes behind attention ----

/// What attention leaves in a layer is multiplied with the output matrix: element `(t, k)` is the
/// sum of the products of the elements of row `t` with those of row `k` of the matrix.
pub proof fn law_layer_output<T: Copy, A: Arith<T>>(
    ar: &A,
    m: Reading<T>,
    c: Config,
    w: LayerWeights<T>,
    i: LayerInput<T>,
    before: LayerState<T>,
    after: LayerState<T>,
    t: int,
    k: int,
)
    requires
        reads(ar, m),
        is_ready(c, w, i, before),
        passes_layer(ar, c, w, i, before, after),
        row_is_numbers(m, after.buffers.attn.data@, t * c.hidden_dim, c.hidden_dim as int),
        holds_matrix(m, w.o_proj.data, c.hidden_dim as int, c.hidden_dim as int),
        0 <= t < i.seq,
        0 <= k < c.hidden_dim,
    ensures
        ({
            let h = c.hidden_dim as int;
            let r = after.buffers.attn_final.data@[t * h + k];
            &&& !m.is_low(r)
            &&& m.of(r) == sum(
                |d: int|
                    m.of(after.buffers.attn.data@[t * h + d]) * weight_value(
                        m,
                        w.o_proj.data,
                        k * h + d,
                    ),
                h,
            )
        }),
{
    let tr = choose|tr: LayerTrace<T>| #[trigger] is_layer(ar, c, w, i, tr, before, after);
    let attn = after.buffers.attn;
    lemma_strides_2(attn.shape@, attn.strides@);
    lemma_strides_2(w.o_proj.shape@, w.o_proj.strides@);
    assert(w.o_proj.shape@ =~= seq![attn.shape@[1], attn.shape@[1]]);
    law_output_projection(
        ar,
        m,
        attn,
        w.o_proj,
        before.buffers.attn_final,
        after.buffers.attn_final,
        t,
        k,
    );
}

/// A layer adds to each row what the output matrix gives and what the feed-forward block gives.
pub proof fn law_layer_adds<T: Copy, A: Arith<T>>(
    ar: &A,
    m: Reading<T>,
    c: Config,
    w: LayerWeights<T>,
    i: LayerInput<T>,
    before: LayerState<T>,
    after: LayerState<T>,
    k: int,
)
    requires
        reads(ar, m),
        is_ready(c, w, i, before),
        passes_layer(ar, c, w, i, before, after),
        0 <= k < i.seq * c.hidden_dim,
        !m.is_low(before.buffers.x.data@[k]),
        !m.is_low(after.buffers.attn_final.data@[k]),
        !m.is_low(after.buffers.ffn_x.data@[k]),
    ensures
        !m.is_low(after.buffers.x.data@[k]),
        m.of(after.buffers.x.data@[k]) == m.of(before.buffers.x.data@[k]) + m.of(
            after.buffers.attn_final.data@[k],
        ) + m.of(after.buffers.ffn_x.data@[k]),
        after.buffers.x.shape@ == before.buffers.x.shape@,
{
    let tr = choose|tr: LayerTrace<T>| #[trigger] is_layer(ar, c, w, i, tr, before, after);
    let x = before.buffers.x;
    lemma_product_2(x.shape@);
    law_residual(ar, m, x, after.buffers.attn_final, tr.x_attended, k);
    law_residual(ar, m, tr.x_attended, after.buffers.ffn_x, after.buffers.x, k);
}

/// Output `j` of a feed-forward layer on row `t` behind a norm.
proof fn lemma_fed<T: Copy, A: Arith<T>>(
    ar: &A,
    m: Reading<T>,
    h: usize,
    epsilon: T,
    x: Tensor<T>,
    norm: WeightTensor<T>,
    normed: Tensor<T>,
    w: WeightTensor<T>,
    blank: Tensor<T>,
    out: Tensor<T>,
    rows: int,
    t: int,
    j: int,
    factor: real,
    row: spec_fn(int) -> real,
)
    requires
        reads(ar, m),
        x.shape@.len() == 2,
        x.shape@[1] == h,
        x.data@.len() == x.shape@[0] * h,
        x.strides@.len() == 2,
        x.strides@[0] == h,
        x.strides@[1] == 1,
        normed.shape@ == x.shape@,
        normed.strides@ == x.strides@,
        normed.data@.len() == x.data@.len(),
        is_normalised(m, x.data@, norm.data, epsilon, t * h, h as int, factor, normed.data@),
        forall|d: int| 0 <= d < h ==> #[trigger] row(d) == m.of(x.data@[t * h + d]),
        is_mlp_mul(ar, normed, w, blank, out),
        matrix_fits(w, rows, h as int),
        holds_matrix(m, w.data, rows, h as int),
        0 <= t < x.shape@[0],
        0 <= j < rows,
    ensures
        !m.is_low(out.data@[t * rows + j]),
        m.of(out.data@[t * rows + j]) == factor * meets(
            m,
            row,
            h as int,
            norm.data,
            w.data,
            j,
        ),
{
    let n = h as int;
    lemma_strides_2(w.shape@, w.strides@);
    lemma_meets(m, x.data@, norm.data, epsilon, t * n, n, factor, normed.data@, w.data, j, row);
    law_feed_forward_layer(ar, m, normed, w, blank, out, t, j);
}

/// The feed-forward block of a layer takes the rows to which attention has been added, behind the
/// second norm. With `g` what the weights `mlp_gate` give of a row and `u` what the weights
/// `mlp_up` give, `g * u / (1 + exp(-g))` goes on.
pub proof fn law_layer_gate<T: Copy, A: Arith<T>>(
    ar: &A,
    m: Reading<T>,
    c: Config,
    w: LayerWeights<T>,
    i: LayerInput<T>,
    before: LayerState<T>,
    after: LayerState<T>,
    t: int,
    j: int,
)
    requires
        reads(ar, m),
        is_ready(c, w, i, before),
        passes_layer(ar, c, w, i, before, after),
        row_is_given(m, c, w.post_attn_layernorm, i, before.buffers.x.data@, t),
        row_is_numbers(m, after.buffers.attn_final.data@, t * c.hidden_dim, c.hidden_dim as int),
        holds_matrix(m, w.mlp_gate.data, c.intermediate_size as int, c.hidden_dim as int),
        holds_matrix(m, w.mlp_up.data, c.intermediate_size as int, c.hidden_dim as int),
        0 <= j < c.intermediate_size,
    ensures
        exists|factor: real|
            {
                let h = c.hidden_dim as int;
                let at = t * c.intermediate_size + j;
                let row = rows_added(
                    m,
                    before.buffers.x.data@,
                    after.buffers.attn_final.data@,
                    t * c.hidden_dim,
                );
                let norm = w.post_attn_layernorm.data;
                let g = factor * meets(m, row, h, norm, w.mlp_gate.data, j);
                let u = factor * meets(m, row, h, norm, w.mlp_up.data, j);
                &&& #[trigger] is_factor(
                    rows_added(
                        m,
                        before.buffers.x.data@,
                        after.buffers.attn_final.data@,
                        t * c.hidden_dim,
                    ),
                    c.hidden_dim as int,
                    m.of(i.epsilon),
                    factor,
                )
                &&& !m.is_low(after.buffers.gate.data@[at])
                &&& m.of(after.buffers.gate.data@[at]) * (1real + (m.exp)(0real - g)) == g * u
            },
{
    let tr = choose|tr: LayerTrace<T>| #[trigger] is_layer(ar, c, w, i, tr, before, after);
    let h = c.hidden_dim as int;
    let inner = c.intermediate_size as int;
    let x = before.buffers.x;
    let y = tr.x_attended;
    let added = after.buffers.attn_final;
    let row = rows_added(m, x.data@, added.data@, t * h);
    lemma_row_bounds(t, i.seq as int, h);
    lemma_row_bounds(t, i.seq as int, inner);
    lemma_product_2(x.shape@);
    lemma_strides_2(x.shape@, x.strides@);
    assert forall|p: int| t * h <= p < t * h + h implies !m.is_low(#[trigger] y.data@[p]) && m.of(
        y.data@[p],
    ) == m.of(x.data@[p]) + m.of(added.data@[p]) by {
        assert(!m.is_low(x.data@[p]));
        assert(!m.is_low(added.data@[p]));
        law_residual(ar, m, x, added, y, p);
    }
    assert forall|d: int| 0 <= d < h implies #[trigger] row(d) == m.of(y.data@[t * h + d]) by {
        assert(!m.is_low(y.data@[t * h + d]));
    }
    let factor = lemma_normalised(
        ar,
        m,
        y,
        w.post_attn_layernorm,
        c.hidden_dim,
        i.epsilon,
        tr.post_normed,
        t,
        row,
    );
    lemma_fed(
        ar,
        m,
        c.hidden_dim,
        i.epsilon,
        y,
        w.post_attn_layernorm,
        tr.post_normed,
        w.mlp_gate,
        before.buffers.gate,
        tr.gated,
        inner,
        t,
        j,
        factor,
        row,
    );
    lemma_fed(
        ar,
        m,
        c.hidden_dim,
        i.epsilon,
        y,
        w.post_attn_layernorm,
        tr.post_normed,
        w.mlp_up,
        before.buffers.up,
        after.buffers.up,
        inner,
        t,
        j,
        factor,
        row,
    );
    law_silu(ar, m, tr.gated, after.buffers.up, after.buffers.gate, t * inner + j);
}

/// What goes on is multiplied with the weights `mlp_down`.
pub proof fn law_layer_down<T: Copy, A: Arith<T>>(
    ar: &A,
    m: Reading<T>,
    c: Config,
    w: LayerWeights<T>,
    i: LayerInput<T>,
    before: LayerState<T>,
    after: LayerState<T>,
    t: int,
    k: int,
)
    requires
        reads(ar, m),
        is_ready(c, w, i, before),
        passes_layer(ar, c, w, i, before, after),
        row_is_numbers(
            m,
            after.buffers.gate.data@,
            t * c.intermediate_size,
            c.intermediate_size as int,
        ),
        holds_matrix(m, w.mlp_down.data, c.hidden_dim as int, c.intermediate_size as int),
        0 <= t < i.seq,
        0 <= k < c.hidden_dim,
    ensures
        ({
            let n = c.intermediate_size as int;
            let r = after.buffers.ffn_x.data@[t * c.hidden_dim + k];
            &&& !m.is_low(r)
            &&& m.of(r) == sum(
                |d: int|
                    m.of(after.buffers.gate.data@[t * n + d]) * weight_value(
                        m,
                        w.mlp_down.data,
                        k * n + d,
                    ),
                n,
            )
        }),
{
    let tr = choose|tr: LayerTrace<T>| #[trigger] is_layer(ar, c, w, i, tr, before, after);
    lemma_strides_2(tr.gated.shape@, tr.gated.strides@);
    lemma_strides_2(w.mlp_down.shape@, w.mlp_down.strides@);
    law_feed_forward_layer(
        ar,
        m,
        after.buffers.gate,
        w.mlp_down,
        before.buffers.ffn_x,
        after.buffers.ffn_x,
        t,
        k,
    );
}

// ---- The head ----

/// The logit of a token is the sum of the products of the last row, the weights of the last norm
/// and the token's row of the embedding, times the factor of the norm.
pub proof fn law_logits<T: Copy, A: Arith<T>>(
    ar: &A,
    m: Reading<T>,
    c: Config,
    model: Model<T>,
    epsilon: T,
    x: Tensor<T>,
    before: Tensor<T>,
    after: Tensor<T>,
    token: int,
)
    requires
        reads(ar, m),
        model_fits(c, model),
        is_head(ar, c, model, epsilon, x, before, after),
        x.shape@[0] > 0,
        rows_fit(c, x, x.shape@[0] as int),
        row_is_numbers(m, x.data@, (x.shape@[0] - 1) * c.hidden_dim, c.hidden_dim as int),
        holds_row(m, model.norm_weight.data, c.hidden_dim as int),
        holds_matrix(m, model.embed_weight.data, c.vocab_size as int, c.hidden_dim as int),
        !m.is_low(epsilon),
        m.of(epsilon) > 0real,
        0 <= token < c.vocab_size,
    ensures
        exists|factor: real|
            {
                let row = row_of(m, x.data@, (x.shape@[0] - 1) * c.hidden_dim);
                &&& #[trigger] is_factor(
                    row_of(m, x.data@, (x.shape@[0] - 1) * c.hidden_dim),
                    c.hidden_dim as int,
                    m.of(epsilon),
                    factor,
                )
                &&& !m.is_low(after.data@[token])
                &&& m.of(after.data@[token]) == factor * meets(
                    m,
                    row,
                    c.hidden_dim as int,
                    model.norm_weight.data,
                    model.embed_weight.data,
                    token,
                )
            },
{
    let (last, normed) = choose|last: Tensor<T>, normed: Tensor<T>| #[trigger]
        head_steps(ar, c, model, epsilon, x, last, normed, before, after);
    let h = c.hidden_dim as int;
    let seq = x.shape@[0] as int;
    let row = row_of(m, x.data@, (seq - 1) * h);
    lemma_row_bounds(seq - 1, seq, h);
    assert(last.data@ =~= x.data@.subrange((seq - 1) * h, (seq - 1) * h + h));
    assert(0 * h == 0 && 1 * h == h) by (nonlinear_arith);
    assert forall|p: int| 0 * h <= p < 0 * h + h implies !m.is_low(#[trigger] last.data@[p]) by {
        assert(last.data@[p] == x.data@[(seq - 1) * h + p]);
    }
    assert forall|d: int| 0 <= d < h implies #[trigger] row(d) == m.of(last.data@[0 * h + d]) by {
        assert(last.data@[d] == x.data@[(seq - 1) * h + d]);
    }
    lemma_strides_2(last.shape@, last.strides@);
    let factor = lemma_normalised(
        ar,
        m,
        last,
        model.norm_weight,
        c.hidden_dim,
        epsilon,
        normed,
        0,
        row,
    );
    lemma_fed(
        ar,
        m,
        c.hidden_dim,
        epsilon,
        last,
        model.norm_weight,
        normed,
        model.embed_weight,
        before,
        after,
        c.vocab_size as int,
        0,
        token,
        factor,
        row,
    );
}

} // verus!
