//! The forward pass: tokens through the layers to logits.
use std::time::Duration;
use vstd::arithmetic::div_mod::lemma_fundamental_div_mod_converse;
use vstd::pervasive::unreached;
use vstd::prelude::*;
use vstd::slice::slice_subrange;

use crate::arith::Arith;
use crate::attention::{
    are_scores, attention_score, attn_out, can_attend, can_score, can_softmax, is_attn_out,
    is_softmax_of, is_stored, law_cache_keeps_other_positions, lemma_flatten, softmax, store_kv,
    stored,
};
use crate::bench::{
    are_measured, is_measured, law_measuring_concatenates, lemma_measured_next, times_grow,
    times_stay, FnIndex, GlobalMonitor,
};
use crate::linear::{
    can_project, embedding_width, is_linear_proj, is_res_conn, is_silu_mul, is_token_embedding,
    lemma_shape_2, linear_proj, res_conn, silu, stored_width, token_embedding, weight_count,
};
use crate::model::{
    bias_fits, buffers_have_room, cache_fits, caches_fit, dims_fit, head_dim_of, kv_group_of,
    kv_width, layer_fits, lemma_shape_3, lemma_strides_2, matrix_fits, model_fits, rows_fit,
    Buffers, LayerWeights, Model,
};
use crate::norm::{is_rmsnorm, lemma_row_bounds, rmsnorm, row_at};
use crate::project::{
    can_mlp, can_out_rayon, can_row_dot, is_mlp_mul, is_out_proj, mlp_mul, out_proj,
};
use crate::rope::{apply_rope, at3, can_rope, is_rope, lemma_row_major_differ, places_differ};
use crate::session::{Config, Session, MAX_SEQ_LEN};
use crate::tensor::{
    lemma_heads_2, lemma_product_2, lemma_product_3, product, row_major, Tensor, WeightTensor,
};
use crate::time::is_shown;

verus! {

/// `after` is `before` with other dimensions.
pub open spec fn is_reshaped<T>(before: Tensor<T>, shape: Seq<usize>, after: Tensor<T>) -> bool {
    &&& after.wf()
    &&& after.shape@ == shape
    &&& after.data@ == before.data@
}

/// The steps that are no part of a layer.
pub open spec fn steps_outside_layers() -> Seq<FnIndex> {
    seq![FnIndex::TokenEmbedding, FnIndex::LmHead, FnIndex::TokenizerDecode]
}

/// The steps of a layer, in their order.
pub open spec fn layer_parts() -> Seq<FnIndex> {
    seq![
        FnIndex::RmsNormInput,
        FnIndex::QkvProj,
        FnIndex::rope,
        FnIndex::AttentionScore,
        FnIndex::Softmax,
        FnIndex::OutProj,
        FnIndex::MlpBlock,
    ]
}

/// The steps that end within a forward pass through `layers` layers, in their order.
pub open spec fn pass_parts(layers: int) -> Seq<FnIndex>
    decreases layers,
{
    if layers <= 0 {
        seq![FnIndex::TokenEmbedding]
    } else {
        pass_parts(layers - 1) + layer_parts()
    }
}

/// How many layers a step at this position goes through: none when the session is full.
pub open spec fn layers_passed(c: Config, current_pos: int) -> int {
    if current_pos >= MAX_SEQ_LEN {
        0
    } else {
        c.layer_count as int
    }
}

/// The steps that do not end within the forward pass.
pub open spec fn steps_outside_forward() -> Seq<FnIndex> {
    seq![FnIndex::LmHead, FnIndex::TokenizerDecode]
}

// ---- A layer ----

/// What a layer computes on the way.
pub ghost struct LayerTrace<T> {
    pub normed: Tensor<T>,
    pub q_shaped: Tensor<T>,
    pub q_projected: Tensor<T>,
    pub k_shaped: Tensor<T>,
    pub k_projected: Tensor<T>,
    pub v_shaped: Tensor<T>,
    pub scores: Tensor<T>,
    pub attended: Tensor<T>,
    pub x_attended: Tensor<T>,
    pub post_normed: Tensor<T>,
    pub gated: Tensor<T>,
}

/// The numbers that a layer is given: the term under the root of a norm, the base of the angles,
/// the position of the first token and that of the last.
pub ghost struct LayerInput<T> {
    pub epsilon: T,
    pub rope_theta: T,
    pub current_pos: usize,
    pub seq: usize,
    pub attn_start_pos: usize,
}

/// The keys and values of a layer, and the tensors that a step works on.
pub ghost struct LayerState<T> {
    pub k_cache: Tensor<T>,
    pub v_cache: Tensor<T>,
    pub buffers: Buffers<T>,
}

/// The steps by which a layer comes from `before` to `after`: the rows are normalised and projected
/// to queries, keys and values; queries and keys are turned by their positions; keys and values
/// are stored; each query is scored with the keys, the scores are made shares, and the values are
/// weighted by them; what comes out is projected and added to the rows; these are normalised and
/// go through the feed-forward block, and what comes out is added to them.
pub open spec fn is_layer<T: Copy, A: Arith<T>>(
    ar: &A,
    c: Config,
    w: LayerWeights<T>,
    i: LayerInput<T>,
    t: LayerTrace<T>,
    before: LayerState<T>,
    after: LayerState<T>,
) -> bool {
    let head_dim = head_dim_of(c) as usize;
    let kv_group = kv_group_of(c) as usize;
    let heads = c.num_attention_heads;
    let kv_heads = c.num_key_value_heads;
    let b0 = before.buffers;
    let b1 = after.buffers;
    &&& is_rmsnorm(ar, b0.x, w.input_layernorm, c.hidden_dim, i.epsilon, t.normed)
    &&& is_reshaped(b0.q_buf, seq![i.seq, heads, head_dim], t.q_shaped)
    &&& is_reshaped(b0.k_buf, seq![i.seq, kv_heads, head_dim], t.k_shaped)
    &&& is_reshaped(b0.v_buf, seq![i.seq, kv_heads, head_dim], t.v_shaped)
    &&& is_linear_proj(ar, t.normed, w.q_weight, w.q_bias, t.q_shaped, t.q_projected)
    &&& is_linear_proj(ar, t.normed, w.k_weight, w.k_bias, t.k_shaped, t.k_projected)
    &&& is_linear_proj(ar, t.normed, w.v_weight, w.v_bias, t.v_shaped, b1.v_buf)
    &&& is_rope(ar, i.rope_theta, i.current_pos, t.q_projected, b1.q_buf)
    &&& is_rope(ar, i.rope_theta, i.current_pos, t.k_projected, b1.k_buf)
    &&& is_stored(b1.k_buf, i.current_pos, kv_heads, head_dim, before.k_cache, after.k_cache)
    &&& is_stored(b1.v_buf, i.current_pos, kv_heads, head_dim, before.v_cache, after.v_cache)
    &&& are_scores(
        ar,
        b1.q_buf,
        after.k_cache,
        kv_group,
        (i.current_pos + i.seq) as usize,
        i.attn_start_pos,
        b0.s,
        t.scores,
    )
    &&& is_softmax_of(ar, t.scores, b1.s)
    &&& is_attn_out(ar, b1.s, after.v_cache, kv_group, b0.attn, t.attended)
    &&& is_reshaped(t.attended, seq![i.seq, c.hidden_dim], b1.attn)
    &&& is_out_proj(ar, b1.attn, w.o_proj, b0.attn_final, b1.attn_final)
    &&& is_res_conn(ar, b0.x, b1.attn_final, t.x_attended)
    &&& is_rmsnorm(
        ar,
        t.x_attended,
        w.post_attn_layernorm,
        c.hidden_dim,
        i.epsilon,
        t.post_normed,
    )
    &&& is_mlp_mul(ar, t.post_normed, w.mlp_gate, b0.gate, t.gated)
    &&& is_mlp_mul(ar, t.post_normed, w.mlp_up, b0.up, b1.up)
    &&& is_silu_mul(ar, t.gated, b1.up, b1.gate)
    &&& is_mlp_mul(ar, b1.gate, w.mlp_down, b0.ffn_x, b1.ffn_x)
    &&& is_res_conn(ar, t.x_attended, b1.ffn_x, b1.x)
    &&& b1.logits == b0.logits
}

/// A layer comes from `before` to `after`.
pub open spec fn passes_layer<T: Copy, A: Arith<T>>(
    ar: &A,
    c: Config,
    w: LayerWeights<T>,
    i: LayerInput<T>,
    before: LayerState<T>,
    after: LayerState<T>,
) -> bool {
    exists|t: LayerTrace<T>| #[trigger] is_layer(ar, c, w, i, t, before, after)
}

// ---- Why the kernels can be called ----

/// Each place of a tensor of three dimensions lies within its elements, and no two are one.
proof fn lemma_places<T>(t: Tensor<T>)
    requires
        t.wf(),
        t.shape@.len() == 3,
        t.shape@[0] * (t.shape@[1] * t.shape@[2]) <= t.data@.len(),
    ensures
        t.strides@.len() == 3,
        t.strides@[0] == t.shape@[1] * t.shape@[2],
        t.strides@[1] == t.shape@[2],
        t.strides@[2] == 1,
        forall|a: int, b: int, c: int|
            0 <= a < t.shape@[0] && 0 <= b < t.shape@[1] && 0 <= c < t.shape@[2] ==> 0
                <= #[trigger] at3(t.strides@, a, b, c) < t.data@.len(),
        places_differ(
            t.strides@,
            t.shape@[0] as int,
            t.shape@[1] as int,
            t.shape@[2] as int,
        ),
        places_differ(
            t.strides@,
            t.shape@[0] as int,
            t.shape@[1] as int,
            t.shape@[2] as int / 2 * 2,
        ),
{
    lemma_product_3(t.shape@);
    assert(t.strides@[0] == product(t.shape@.skip(1)));
    assert(t.strides@[1] == product(t.shape@.skip(2)));
    assert(t.strides@[2] == product(t.shape@.skip(3)));
    lemma_row_major_differ(t.shape@, t.strides@);
    assert forall|a: int, b: int, c: int|
        0 <= a < t.shape@[0] && 0 <= b < t.shape@[1] && 0 <= c < t.shape@[2] implies 0
        <= #[trigger] at3(t.strides@, a, b, c) < t.data@.len() by {
        lemma_flatten(
            a,
            b,
            c,
            t.shape@[0] as int,
            t.shape@[1] as int,
            t.shape@[2] as int,
        );
    }
}
/// Each row of a matrix can be multiplied with a row as long as it.
proof fn lemma_matrix_row<T>(w: WeightTensor<T>, rows: int, cols: int, k: int)
    requires
        matrix_fits(w, rows, cols),
        0 <= k < rows,
    ensures
        w.strides@.len() == 2,
        w.strides@[0] == cols,
        w.strides@[1] == 1,
        can_row_dot(w.data, cols, k, cols, cols, cols),
{
    lemma_strides_2(w.shape@, w.strides@);
    let width = stored_width(w.data, cols);
    assert(0 <= width) by {
        if w.data is Q8 {
            assert(0 <= cols / 32);
        }
    }
    lemma_row_bounds(k, rows, width);
}

/// The projection of `seq` rows of `cols` elements to `rows` outputs each.
proof fn lemma_can_project<T>(
    input: Tensor<T>,
    w: WeightTensor<T>,
    b: WeightTensor<T>,
    q: Tensor<T>,
    seq: int,
    rows: int,
    cols: int,
)
    requires
        input.shape@.len() == 2,
        input.shape@[0] == seq,
        input.shape@[1] == cols,
        seq * cols <= input.data@.len(),
        matrix_fits(w, rows, cols),
        bias_fits(w, b, rows),
        q.strides@.len() >= 1,
        q.strides@[0] == rows,
        seq * rows <= q.data@.len(),
    ensures
        can_project(input, w, b, q),
{
    if seq > 0 {
        lemma_row_bounds(seq - 1, seq, rows);
    }
}

/// The output projection of `seq` rows of `n` elements.
proof fn lemma_can_out<T>(
    attn: Tensor<T>,
    o: WeightTensor<T>,
    atten_fn: Tensor<T>,
    seq: int,
    n: int,
)
    requires
        attn.wf(),
        attn.shape@.len() == 2,
        attn.shape@[0] == seq,
        attn.shape@[1] == n,
        seq * n <= attn.data@.len(),
        seq * n <= atten_fn.data@.len(),
        matrix_fits(o, n, n),
        n > 0,
    ensures
        can_out_rayon(attn, o, atten_fn),
{
    lemma_strides_2(attn.shape@, attn.strides@);
    lemma_strides_2(o.shape@, o.strides@);
    let total = seq * n;
    if total > 0 {
        assert(seq > 0) by (nonlinear_arith)
            requires
                seq * n > 0,
                n > 0,
        ;
        lemma_row_bounds(seq - 1, seq, n);
        lemma_fundamental_div_mod_converse(total - 1, n, seq - 1, n - 1);
        assert forall|k: int| 0 <= k < n && k < total implies #[trigger] can_row_dot(
            o.data,
            n,
            k,
            n,
            n,
            n,
        ) by {
            lemma_matrix_row(o, n, n, k);
        }
    }
}

/// A feed-forward layer on `seq` rows of `cols` elements, with `rows` outputs each.
proof fn lemma_can_mlp<T>(
    x: Tensor<T>,
    w: WeightTensor<T>,
    output: Tensor<T>,
    seq: int,
    rows: int,
    cols: int,
)
    requires
        row_major(x.shape@, x.strides@),
        x.shape@.len() == 2,
        x.shape@[0] == seq,
        x.shape@[1] == cols,
        seq * cols <= x.data@.len(),
        matrix_fits(w, rows, cols),
        seq * rows <= output.data@.len(),
    ensures
        can_mlp(x, w, output),
{
    lemma_strides_2(x.shape@, x.strides@);
    lemma_strides_2(w.shape@, w.strides@);
    if seq * rows > 0 {
        assert(seq > 0) by (nonlinear_arith)
            requires
                seq * rows > 0,
                rows >= 0,
        ;
        lemma_row_bounds(seq - 1, seq, cols);
        assert(cols * 1 == cols) by (nonlinear_arith);
        assert forall|k: int| 0 <= k < rows implies #[trigger] can_row_dot(
            w.data,
            cols * x.strides@[1],
            k,
            w.strides@[0] as int,
            cols,
            cols * w.strides@[1],
        ) by {
            lemma_matrix_row(w, rows, cols, k);
        }
    }
}

// ---- The parts of a layer ----

/// Gives a buffer the dimensions of the heads of a step, and projects the rows into it.
fn project_heads<T: Copy, A: Arith<T>>(
    ar: &A,
    normed: &Tensor<T>,
    w: &WeightTensor<T>,
    b: &WeightTensor<T>,
    buf: &mut Tensor<T>,
    heads: usize,
    head_dim: usize,
) -> (shaped: Ghost<Tensor<T>>)
    requires
        normed.shape@.len() == 2,
        normed.shape@[0] > 0,
        heads > 0,
        normed.shape@[0] * normed.shape@[1] <= normed.data@.len(),
        matrix_fits(*w, heads * head_dim, normed.shape@[1] as int),
        bias_fits(*w, *b, heads * head_dim),
        normed.shape@[0] * (heads * head_dim) <= old(buf).data@.len(),
    ensures
        is_reshaped(*old(buf), seq![normed.shape@[0], heads, head_dim], shaped@),
        is_linear_proj(ar, *normed, *w, *b, shaped@, *final(buf)),
        final(buf).wf(),
        final(buf).shape@ == seq![normed.shape@[0], heads, head_dim],
        final(buf).data@.len() == old(buf).data@.len(),
{
    let seq = normed.shape[0];
    let shape: Vec<usize> = vec![seq, heads, head_dim];
    proof {
        assert(shape@ =~= seq![seq, heads, head_dim]);
        assert(buf.data.len() == buf.data@.len());
        lemma_shape_3(shape@);
    }
    buf.update_shape(shape);
    let ghost shaped = *buf;
    proof {
        lemma_places(*buf);
        lemma_can_project(
            *normed,
            *w,
            *b,
            *buf,
            seq as int,
            heads * head_dim,
            normed.shape@[1] as int,
        );
    }
    let _ = linear_proj(ar, normed, w, b, buf);
    Ghost(shaped)
}

/// Turns the heads of a buffer by their positions.
fn turn_heads<T: Copy, A: Arith<T>>(
    ar: &A,
    buf: &mut Tensor<T>,
    rope_theta: T,
    current_pos: usize,
)
    requires
        old(buf).wf(),
        old(buf).shape@.len() == 3,
        old(buf).shape@[0] * (old(buf).shape@[1] * old(buf).shape@[2]) <= old(buf).data@.len(),
        old(buf).shape@[0] + current_pos <= MAX_SEQ_LEN,
    ensures
        is_rope(ar, rope_theta, current_pos, *old(buf), *final(buf)),
        final(buf).wf(),
{
    proof {
        lemma_places(*buf);
        assert(can_rope(*buf));
    }
    apply_rope(ar, buf, rope_theta, current_pos);
}

/// What attention computes on the way: the scores, and the weighted values while their heads are a
/// dimension of their own.
pub ghost struct AttentionTrace<T> {
    pub scores: Tensor<T>,
    pub attended: Tensor<T>,
}

/// Scores the queries with the keys, and weights the values by the shares of the scores.
fn attend<T: Copy, A: Arith<T>>(
    ar: &A,
    q: &Tensor<T>,
    k_cache: &Tensor<T>,
    v_cache: &Tensor<T>,
    kv_group: usize,
    valid_kv_len: usize,
    attn_start_pos: usize,
    s: &mut Tensor<T>,
    attn: &mut Tensor<T>,
    monitor: &mut GlobalMonitor,
) -> (t: Ghost<AttentionTrace<T>>)
    requires
        q.wf(),
        q.shape@.len() == 3,
        q.shape@[0] > 0,
        q.shape@[1] > 0,
        q.shape@[0] * (q.shape@[1] * q.shape@[2]) <= q.data@.len(),
        k_cache.wf(),
        v_cache.wf(),
        k_cache.shape@.len() == 3,
        v_cache.shape@ == k_cache.shape@,
        k_cache.shape@[2] == q.shape@[2],
        0 < valid_kv_len <= k_cache.shape@[0],
        k_cache.shape@[0] * (k_cache.shape@[1] * k_cache.shape@[2]) <= k_cache.data@.len(),
        v_cache.shape@[0] * (v_cache.shape@[1] * v_cache.shape@[2]) <= v_cache.data@.len(),
        kv_group > 0,
        (q.shape@[1] - 1) / (kv_group as int) < k_cache.shape@[1],
        q.shape@[0] <= attn_start_pos + 1,
        q.shape@[1] * (q.shape@[0] * valid_kv_len) <= old(s).data@.len(),
        q.shape@[0] * (q.shape@[1] * q.shape@[2]) <= old(attn).data@.len(),
    ensures
        are_scores(
            ar,
            *q,
            *k_cache,
            kv_group,
            valid_kv_len,
            attn_start_pos,
            *old(s),
            t@.scores,
        ),
        is_softmax_of(ar, t@.scores, *final(s)),
        is_attn_out(ar, *final(s), *v_cache, kv_group, *old(attn), t@.attended),
        is_reshaped(
            t@.attended,
            seq![q.shape@[0], (q.shape@[1] * q.shape@[2]) as usize],
            *final(attn),
        ),
        final(s).data@.len() == old(s).data@.len(),
        final(attn).data@.len() == old(attn).data@.len(),
        are_measured(
            old(monitor).accum_times@,
            final(monitor).accum_times@,
            seq![FnIndex::AttentionScore, FnIndex::Softmax],
        ),
        times_grow(old(monitor).accum_times@, final(monitor).accum_times@),
        times_stay(old(monitor).accum_times@, final(monitor).accum_times@, steps_outside_layers()),
{
    let seq = q.shape[0];
    let heads = q.shape[1];
    let head_dim = q.shape[2];
    let ghost s_shape = seq![heads, seq, valid_kv_len];
    let ghost a_shape = seq![seq, heads, head_dim];
    proof {
        assert(s.data.len() == s.data@.len());
        assert(attn.data.len() == attn.data@.len());
        lemma_shape_3(s_shape);
        lemma_shape_3(a_shape);
        lemma_places(*q);
        lemma_places(*k_cache);
        lemma_places(*v_cache);
        assert(0 < seq * valid_kv_len && 0 < heads * (seq * valid_kv_len)) by (nonlinear_arith)
            requires
                seq > 0,
                heads > 0,
                valid_kv_len > 0,
        ;
        assert(can_score(*q, *k_cache, kv_group, valid_kv_len, attn_start_pos, *s));
    }
    let ghost times0 = monitor.accum_times@;
    monitor.enter();
    let _ = attention_score(ar, q, k_cache, kv_group, valid_kv_len, attn_start_pos, s);
    let _ = monitor.exit(FnIndex::AttentionScore);
    let ghost times1 = monitor.accum_times@;
    let ghost scores = *s;
    proof {
        lemma_places(*s);
        assert(can_softmax(*s));
    }
    monitor.enter();
    softmax(ar, s);
    let _ = monitor.exit(FnIndex::Softmax);
    proof {
        let first = Seq::<FnIndex>::empty().push(FnIndex::AttentionScore);
        lemma_measured_next(times0, times0, times1, Seq::empty(), FnIndex::AttentionScore);
        lemma_measured_next(times0, times1, monitor.accum_times@, first, FnIndex::Softmax);
        assert(first.push(FnIndex::Softmax) =~= seq![FnIndex::AttentionScore, FnIndex::Softmax]);
    }
    proof {
        lemma_places(*s);
        assert(can_attend(*s, *v_cache, kv_group, *attn));
    }
    let _ = attn_out(ar, s, v_cache, kv_group, attn);
    let ghost attended = *attn;
    proof {
        assert(heads * head_dim <= seq * (heads * head_dim)) by (nonlinear_arith)
            requires
                seq > 0,
                heads * head_dim >= 0,
        ;
    }
    let shape: Vec<usize> = vec![seq, heads * head_dim];
    proof {
        assert(shape@ =~= seq![seq, (heads * head_dim) as usize]);
        lemma_shape_2(shape@);
    }
    attn.update_shape(shape);
    Ghost(AttentionTrace { scores, attended })
}

/// What the feed-forward block computes on the way: the normalised rows, and the factor that goes
/// through `silu`.
pub ghost struct BlockTrace<T> {
    pub post_normed: Tensor<T>,
    pub gated: Tensor<T>,
}

/// Normalises the rows, sends them through the feed-forward block and adds what comes out.
fn feed_forward<T: Copy + Send + Sync, A: Arith<T> + Sync>(
    ar: &A,
    c: &Config,
    w: &LayerWeights<T>,
    epsilon: T,
    x: &mut Tensor<T>,
    gate: &mut Tensor<T>,
    up: &mut Tensor<T>,
    ffn_x: &mut Tensor<T>,
    monitor: &mut GlobalMonitor,
) -> (t: Ghost<BlockTrace<T>>)
    requires
        dims_fit(*c),
        layer_fits(*c, *w),
        old(x).shape@.len() == 2,
        rows_fit(*c, *old(x), old(x).shape@[0] as int),
        old(x).shape@[0] * c.intermediate_size <= old(gate).data@.len(),
        old(x).shape@[0] * c.intermediate_size <= old(up).data@.len(),
        old(x).shape@[0] * c.hidden_dim <= old(ffn_x).data@.len(),
    ensures
        is_rmsnorm(
            ar,
            *old(x),
            w.post_attn_layernorm,
            c.hidden_dim,
            epsilon,
            t@.post_normed,
        ),
        is_mlp_mul(ar, t@.post_normed, w.mlp_gate, *old(gate), t@.gated),
        is_mlp_mul(ar, t@.post_normed, w.mlp_up, *old(up), *final(up)),
        is_silu_mul(ar, t@.gated, *final(up), *final(gate)),
        is_mlp_mul(ar, *final(gate), w.mlp_down, *old(ffn_x), *final(ffn_x)),
        is_res_conn(ar, *old(x), *final(ffn_x), *final(x)),
        rows_fit(*c, *final(x), old(x).shape@[0] as int),
        final(gate).data@.len() == old(gate).data@.len(),
        final(up).data@.len() == old(up).data@.len(),
        final(ffn_x).data@.len() == old(ffn_x).data@.len(),
        is_shown(final(monitor).start_slot),
        is_measured(old(monitor).accum_times@, final(monitor).accum_times@, FnIndex::MlpBlock),
        times_grow(old(monitor).accum_times@, final(monitor).accum_times@),
        times_stay(old(monitor).accum_times@, final(monitor).accum_times@, steps_outside_layers()),
{
    monitor.enter();
    let ghost seq = x.shape@[0] as int;
    let ghost hidden = c.hidden_dim as int;
    let ghost inner = c.intermediate_size as int;
    let post = match rmsnorm(ar, x, &w.post_attn_layernorm, c.hidden_dim, epsilon) {
        Ok(post) => post,
        Err(_) => unreached(),
    };
    proof {
        lemma_can_mlp(post, w.mlp_gate, *gate, seq, inner, hidden);
        lemma_can_mlp(post, w.mlp_up, *up, seq, inner, hidden);
    }
    let _ = mlp_mul(ar, &post, &w.mlp_gate, gate);
    let ghost gated = *gate;
    let _ = mlp_mul(ar, &post, &w.mlp_up, up);
    silu(ar, gate, up);
    proof {
        lemma_can_mlp(*gate, w.mlp_down, *ffn_x, seq, hidden, inner);
    }
    let _ = mlp_mul(ar, gate, &w.mlp_down, ffn_x);
    let _ = monitor.exit(FnIndex::MlpBlock);
    proof {
        lemma_product_2(x.shape@);
        assert(x.data.len() == x.data@.len());
        lemma_heads_2(x.shape@);
    }
    res_conn(ar, x, ffn_x);
    Ghost(BlockTrace { post_normed: post, gated })
}

/// The steps of a layer are measured in their order.
proof fn lemma_layer_measured(
    t0: Seq<Duration>,
    t1: Seq<Duration>,
    t2: Seq<Duration>,
    t3: Seq<Duration>,
    t5: Seq<Duration>,
    t6: Seq<Duration>,
    t7: Seq<Duration>,
)
    requires
        is_measured(t0, t1, FnIndex::RmsNormInput),
        is_measured(t1, t2, FnIndex::QkvProj),
        is_measured(t2, t3, FnIndex::rope),
        are_measured(t3, t5, seq![FnIndex::AttentionScore, FnIndex::Softmax]),
        is_measured(t5, t6, FnIndex::OutProj),
        is_measured(t6, t7, FnIndex::MlpBlock),
    ensures
        are_measured(t0, t7, layer_parts()),
{
    let s0 = Seq::<FnIndex>::empty();
    let s1 = s0.push(FnIndex::RmsNormInput);
    let s2 = s1.push(FnIndex::QkvProj);
    let s3 = s2.push(FnIndex::rope);
    let attended = seq![FnIndex::AttentionScore, FnIndex::Softmax];
    lemma_measured_next(t0, t0, t1, s0, FnIndex::RmsNormInput);
    lemma_measured_next(t0, t1, t2, s1, FnIndex::QkvProj);
    lemma_measured_next(t0, t2, t3, s2, FnIndex::rope);
    law_measuring_concatenates(t0, t3, t5, s3, attended);
    lemma_measured_next(t0, t5, t6, s3 + attended, FnIndex::OutProj);
    let s6 = (s3 + attended).push(FnIndex::OutProj);
    lemma_measured_next(t0, t6, t7, s6, FnIndex::MlpBlock);
    assert(s6.push(FnIndex::MlpBlock) =~= layer_parts());
}

/// Sends the rows through a layer.
///
/// The time of each of its steps is recorded by the monitor, in the order of the steps.
pub fn layer_forward<T: Copy + Send + Sync, A: Arith<T> + Sync>(
    ar: &A,
    c: &Config,
    w: &LayerWeights<T>,
    epsilon: T,
    rope_theta: T,
    current_pos: usize,
    attn_start_pos: usize,
    k_cache: &mut Tensor<T>,
    v_cache: &mut Tensor<T>,
    b: &mut Buffers<T>,
    monitor: &mut GlobalMonitor,
)
    requires
        dims_fit(*c),
        layer_fits(*c, *w),
        cache_fits(*c, *old(k_cache)),
        cache_fits(*c, *old(v_cache)),
        old(b).x.shape@.len() == 2,
        ({
            let seq = old(b).x.shape@[0] as int;
            &&& seq > 0
            &&& rows_fit(*c, old(b).x, seq)
            &&& buffers_have_room(*c, *old(b), seq)
            &&& current_pos + seq <= MAX_SEQ_LEN
            &&& seq <= attn_start_pos + 1
        }),
    ensures
        ({
            let seq = old(b).x.shape@[0];
            &&& passes_layer(
                ar,
                *c,
                *w,
                LayerInput { epsilon, rope_theta, current_pos, seq, attn_start_pos },
                LayerState { k_cache: *old(k_cache), v_cache: *old(v_cache), buffers: *old(b) },
                LayerState { k_cache: *final(k_cache), v_cache: *final(v_cache), buffers: *final(b) },
            )
            &&& rows_fit(*c, final(b).x, seq as int)
            &&& buffers_have_room(*c, *final(b), seq as int)
        }),
        cache_fits(*c, *final(k_cache)),
        cache_fits(*c, *final(v_cache)),
        final(b).logits == old(b).logits,
        is_shown(final(monitor).start_slot),
        are_measured(old(monitor).accum_times@, final(monitor).accum_times@, layer_parts()),
        times_grow(old(monitor).accum_times@, final(monitor).accum_times@),
        times_stay(old(monitor).accum_times@, final(monitor).accum_times@, steps_outside_layers()),
{
    let seq = b.x.shape[0];
    let head_dim = c.head_dim();
    let kv_group = c.kv_group();
    let heads = c.num_attention_heads;
    let kv_heads = c.num_key_value_heads;
    let ghost before = LayerState { k_cache: *k_cache, v_cache: *v_cache, buffers: *b };
    let ghost times0 = monitor.accum_times@;
    monitor.enter();
    let normed = match rmsnorm(ar, &b.x, &w.input_layernorm, c.hidden_dim, epsilon) {
        Ok(normed) => normed,
        Err(_) => unreached(),
    };
    let _ = monitor.exit(FnIndex::RmsNormInput);
    let ghost times1 = monitor.accum_times@;
    monitor.enter();
    let Ghost(q_shaped) = project_heads(
        ar,
        &normed,
        &w.q_weight,
        &w.q_bias,
        &mut b.q_buf,
        heads,
        head_dim,
    );
    let ghost q_projected = b.q_buf;
    let Ghost(k_shaped) = project_heads(
        ar,
        &normed,
        &w.k_weight,
        &w.k_bias,
        &mut b.k_buf,
        kv_heads,
        head_dim,
    );
    let ghost k_projected = b.k_buf;
    let Ghost(v_shaped) = project_heads(
        ar,
        &normed,
        &w.v_weight,
        &w.v_bias,
        &mut b.v_buf,
        kv_heads,
        head_dim,
    );
    let _ = monitor.exit(FnIndex::QkvProj);
    let ghost times2 = monitor.accum_times@;
    monitor.enter();
    turn_heads(ar, &mut b.q_buf, rope_theta, current_pos);
    turn_heads(ar, &mut b.k_buf, rope_theta, current_pos);
    let _ = monitor.exit(FnIndex::rope);
    let ghost times3 = monitor.accum_times@;
    proof {
        lemma_store_room(*c, current_pos as int, seq as int, k_cache.data@.len() as int);
        lemma_store_room(*c, current_pos as int, seq as int, v_cache.data@.len() as int);
        assert(k_cache.data.len() == k_cache.data@.len());
    }
    store_kv(k_cache, &b.k_buf, current_pos, kv_heads, head_dim);
    store_kv(v_cache, &b.v_buf, current_pos, kv_heads, head_dim);
    proof {
        let width = kv_width(*c);
        lemma_stored_len(
            before.k_cache.data@,
            b.k_buf.data@,
            current_pos as int,
            seq as int,
            width,
        );
        lemma_stored_len(
            before.v_cache.data@,
            b.v_buf.data@,
            current_pos as int,
            seq as int,
            width,
        );
        assert(v_cache.shape@ =~= k_cache.shape@);
    }
    let valid_kv_len = current_pos + seq;
    proof {
        lemma_score_room(
            heads as int,
            seq as int,
            valid_kv_len as int,
            b.s.data@.len() as int,
        );
    }
    let Ghost(a) = attend(
        ar,
        &b.q_buf,
        k_cache,
        v_cache,
        kv_group,
        valid_kv_len,
        attn_start_pos,
        &mut b.s,
        &mut b.attn,
        monitor,
    );
    let ghost times5 = monitor.accum_times@;
    monitor.enter();
    proof {
        lemma_can_out(b.attn, w.o_proj, b.attn_final, seq as int, c.hidden_dim as int);
    }
    let _ = out_proj(ar, &b.attn, &w.o_proj, &mut b.attn_final);
    let _ = monitor.exit(FnIndex::OutProj);
    let ghost times6 = monitor.accum_times@;
    proof {
        lemma_product_2(b.x.shape@);
        assert(b.x.data.len() == b.x.data@.len());
        lemma_heads_2(b.x.shape@);
    }
    res_conn(ar, &mut b.x, &b.attn_final);
    let ghost x_attended = b.x;
    let Ghost(f) = feed_forward(
        ar,
        c,
        w,
        epsilon,
        &mut b.x,
        &mut b.gate,
        &mut b.up,
        &mut b.ffn_x,
        monitor,
    );
    proof {
        let after = LayerState { k_cache: *k_cache, v_cache: *v_cache, buffers: *b };
        let t = LayerTrace {
            normed,
            q_shaped,
            q_projected,
            k_shaped,
            k_projected,
            v_shaped,
            scores: a.scores,
            attended: a.attended,
            x_attended,
            post_normed: f.post_normed,
            gated: f.gated,
        };
        let i = LayerInput { epsilon, rope_theta, current_pos, seq, attn_start_pos };
        lemma_layer_measured(
            times0,
            times1,
            times2,
            times3,
            times5,
            times6,
            monitor.accum_times@,
        );
        assert(is_layer(ar, *c, *w, i, t, before, after));
    }
}

/// The positions of a step have room in a cache.
proof fn lemma_store_room(c: Config, current_pos: int, seq: int, len: int)
    requires
        dims_fit(c),
        0 <= current_pos,
        0 <= seq,
        current_pos + seq <= MAX_SEQ_LEN,
        MAX_SEQ_LEN * kv_width(c) <= len,
    ensures
        0 <= kv_width(c) <= len,
        (current_pos + seq) * kv_width(c) <= len,
{
    let width = kv_width(c);
    assert(0 <= head_dim_of(c)) by (nonlinear_arith)
        requires
            head_dim_of(c) == c.hidden_dim as int / c.num_attention_heads as int,
            c.num_attention_heads > 0,
            c.hidden_dim >= 0,
    ;
    assert(0 <= width) by (nonlinear_arith)
        requires
            width == c.num_key_value_heads * head_dim_of(c),
            0 <= head_dim_of(c),
    ;
    assert((current_pos + seq) * width <= MAX_SEQ_LEN * width) by (nonlinear_arith)
        requires
            0 <= width,
            current_pos + seq <= MAX_SEQ_LEN,
    ;
}

proof fn lemma_stored_len<T>(cache: Seq<T>, buf: Seq<T>, from: int, n: int, width: int)
    requires
        0 <= from,
        0 <= n,
        0 <= width,
        n * width <= buf.len(),
        (from + n) * width <= cache.len(),
    ensures
        stored(cache, buf, from, n, width).len() == cache.len(),
{
    assert(0 <= from * width && 0 <= n * width && (from + n) * width == from * width + n * width)
        by (nonlinear_arith)
        requires
            0 <= from,
            0 <= n,
            0 <= width,
    ;
}

/// The scores of a step have room.
proof fn lemma_score_room(heads: int, seq: int, valid: int, len: int)
    requires
        0 <= heads,
        0 <= seq,
        0 <= valid <= MAX_SEQ_LEN,
        heads * (seq * MAX_SEQ_LEN) <= len,
    ensures
        heads * (seq * valid) <= len,
{
    assert(seq * valid <= seq * MAX_SEQ_LEN) by (nonlinear_arith)
        requires
            0 <= seq,
            valid <= MAX_SEQ_LEN,
    ;
    assert(heads * (seq * valid) <= heads * (seq * MAX_SEQ_LEN)) by (nonlinear_arith)
        requires
            0 <= heads,
            seq * valid <= seq * MAX_SEQ_LEN,
    ;
}
// ---- A step ----

/// The keys and values of all layers, and the tensors that a step works on.
pub ghost struct ModelState<T> {
    pub k_cache: Seq<Tensor<T>>,
    pub v_cache: Seq<Tensor<T>>,
    pub buffers: Buffers<T>,
}

/// Layer `l` comes from `before` to `after`, and leaves the keys and values of the others.
pub open spec fn passes_layer_at<T: Copy, A: Arith<T>>(
    ar: &A,
    c: Config,
    m: Model<T>,
    i: LayerInput<T>,
    l: int,
    before: ModelState<T>,
    after: ModelState<T>,
) -> bool {
    &&& passes_layer(
        ar,
        c,
        m.layers@[l],
        i,
        LayerState {
            k_cache: before.k_cache[l],
            v_cache: before.v_cache[l],
            buffers: before.buffers,
        },
        LayerState { k_cache: after.k_cache[l], v_cache: after.v_cache[l], buffers: after.buffers },
    )
    &&& after.k_cache == before.k_cache.update(l, after.k_cache[l])
    &&& after.v_cache == before.v_cache.update(l, after.v_cache[l])
}

/// The first `n` layers come from `before` to `after`.
pub open spec fn passes_layers<T: Copy, A: Arith<T>>(
    ar: &A,
    c: Config,
    m: Model<T>,
    i: LayerInput<T>,
    n: int,
    before: ModelState<T>,
    after: ModelState<T>,
) -> bool
    decreases n,
{
    if n <= 0 {
        after == before
    } else {
        exists|middle: ModelState<T>|
            passes_layers(ar, c, m, i, n - 1, before, middle) && #[trigger] passes_layer_at(
                ar,
                c,
                m,
                i,
                n - 1,
                middle,
                after,
            )
    }
}

/// The logits of a step come from its last row: it is normalised and multiplied with each row of
/// the embedding.
pub open spec fn is_head<T: Copy, A: Arith<T>>(
    ar: &A,
    c: Config,
    m: Model<T>,
    epsilon: T,
    x: Tensor<T>,
    before: Tensor<T>,
    after: Tensor<T>,
) -> bool {
    exists|last: Tensor<T>, normed: Tensor<T>| #[trigger]
        head_steps(ar, c, m, epsilon, x, last, normed, before, after)
}

/// The last row, as it is and normalised, from which the logits come.
pub open spec fn head_steps<T: Copy, A: Arith<T>>(
    ar: &A,
    c: Config,
    m: Model<T>,
    epsilon: T,
    x: Tensor<T>,
    last: Tensor<T>,
    normed: Tensor<T>,
    before: Tensor<T>,
    after: Tensor<T>,
) -> bool {
    let seq = x.shape@[0] as int;
    &&& last.wf()
    &&& last.shape@ == seq![1usize, c.hidden_dim]
    &&& last.data@ == row_at(x.data@, seq - 1, c.hidden_dim as int)
    &&& is_rmsnorm(ar, last, m.norm_weight, c.hidden_dim, epsilon, normed)
    &&& is_mlp_mul(ar, normed, m.embed_weight, before, after)
}

/// A step: the rows of the tokens in the embedding go through the layers, unless the caches are
/// full, and the last row gives the logits.
pub open spec fn is_forward<T: Copy, A: Arith<T>>(
    ar: &A,
    c: Config,
    m: Model<T>,
    tokens: Seq<usize>,
    i: LayerInput<T>,
    before: ModelState<T>,
    after: ModelState<T>,
) -> bool {
    exists|x: Tensor<T>, middle: ModelState<T>| #[trigger]
        forward_steps(ar, c, m, tokens, i, x, before, middle, after)
}

/// The rows of the tokens, which look as far as the position of the last of them, and what the
/// layers leave, from which the logits come.
pub open spec fn forward_steps<T: Copy, A: Arith<T>>(
    ar: &A,
    c: Config,
    m: Model<T>,
    tokens: Seq<usize>,
    i: LayerInput<T>,
    x: Tensor<T>,
    before: ModelState<T>,
    middle: ModelState<T>,
    after: ModelState<T>,
) -> bool {
    let layers = layers_passed(c, i.current_pos as int);
    let start = ModelState { buffers: Buffers { x, ..before.buffers }, ..before };
    &&& i.seq == tokens.len()
    &&& i.attn_start_pos == i.current_pos + i.seq - 1
    &&& is_token_embedding(ar, tokens, m.embed_weight, x)
    &&& passes_layers(ar, c, m, i, layers, start, middle)
    &&& after.k_cache == middle.k_cache
    &&& after.v_cache == middle.v_cache
    &&& after.buffers == (Buffers { logits: after.buffers.logits, ..middle.buffers })
    &&& is_head(
        ar,
        c,
        m,
        i.epsilon,
        middle.buffers.x,
        middle.buffers.logits,
        after.buffers.logits,
    )
}

/// Each token has a row in the embedding.
proof fn lemma_embedding_room<T>(w: WeightTensor<T>, rows: int, cols: int, id: int)
    requires
        matrix_fits(w, rows, cols),
        0 <= id < rows,
    ensures
        embedding_width(w.data, cols) == cols,
        (id + 1) * cols <= weight_count(w.data),
{
    lemma_row_bounds(id, rows, cols);
    if w.data is Q8 {
        let blocks = cols / 32;
        assert(rows * cols == 32 * (rows * blocks)) by (nonlinear_arith)
            requires
                cols == 32 * blocks,
        ;
    }
}

/// The logits of the last row.
fn head<T: Copy + Send + Sync, A: Arith<T> + Sync>(
    ar: &A,
    c: &Config,
    m: &Model<T>,
    epsilon: T,
    x: &Tensor<T>,
    logits: &mut Tensor<T>,
)
    requires
        model_fits(*c, *m),
        x.shape@.len() == 2,
        x.shape@[0] > 0,
        rows_fit(*c, *x, x.shape@[0] as int),
        c.vocab_size <= old(logits).data@.len(),
    ensures
        is_head(ar, *c, *m, epsilon, *x, *old(logits), *final(logits)),
        final(logits).data@.len() == old(logits).data@.len(),
{
    let seq = x.shape[0];
    let hidden = c.hidden_dim;
    proof {
        lemma_row_bounds(seq - 1, seq as int, hidden as int);
        assert(x.data.len() == x.data@.len());
    }
    let row = slice_subrange(x.data.as_slice(), (seq - 1) * hidden, seq * hidden);
    let mut data: Vec<T> = Vec::new();
    let mut i: usize = 0;
    while i < row.len()
        invariant
            i <= row@.len(),
            data@ == row@.take(i as int),
        decreases row@.len() - i,
    {
        data.push(row[i]);
        proof {
            assert(row@.take(i + 1) =~= row@.take(i as int).push(row@[i as int]));
        }
        i += 1;
    }
    assert(row@.take(row@.len() as int) =~= row@);
    let shape: Vec<usize> = vec![1, hidden];
    proof {
        assert(shape@ =~= seq![1usize, hidden]);
        lemma_shape_2(shape@);
        assert(data@ =~= row_at(x.data@, seq - 1, hidden as int));
    }
    let last = Tensor::new(data, shape);
    let normed = match rmsnorm(ar, &last, &m.norm_weight, hidden, epsilon) {
        Ok(normed) => normed,
        Err(_) => unreached(),
    };
    proof {
        lemma_can_mlp(
            normed,
            m.embed_weight,
            *logits,
            1,
            c.vocab_size as int,
            hidden as int,
        );
    }
    let ghost before = *logits;
    let _ = mlp_mul(ar, &normed, &m.embed_weight, logits);
    assert(head_steps(ar, *c, *m, epsilon, *x, last, normed, before, *logits));
}

/// Takes a step: computes the logits of the token that follows those of the session.
///
/// The time of each part is recorded by the monitor, on which the part that gives the logits is
/// still under way at the end.
pub fn forward<T: Copy + Send + Sync, A: Arith<T> + Sync>(
    ar: &A,
    c: &Config,
    m: &Model<T>,
    epsilon: T,
    rope_theta: T,
    session: &Session,
    k_cache: &mut Vec<Tensor<T>>,
    v_cache: &mut Vec<Tensor<T>>,
    b: &mut Buffers<T>,
    monitor: &mut GlobalMonitor,
)
    requires
        model_fits(*c, *m),
        caches_fit(*c, old(k_cache)@),
        caches_fit(*c, old(v_cache)@),
        session.wf(),
        session.current_token@.len() > 0,
        forall|t: int|
            0 <= t < session.current_token@.len() ==> (#[trigger] session.current_token@[t])
                < c.vocab_size,
        buffers_have_room(*c, *old(b), session.current_token@.len() as int),
        c.vocab_size <= old(b).logits.data@.len(),
        session.current_pos < MAX_SEQ_LEN ==> session.current_pos + session.current_token@.len()
            <= MAX_SEQ_LEN,
    ensures
        is_forward(
            ar,
            *c,
            *m,
            session.current_token@,
            LayerInput {
                epsilon,
                rope_theta,
                current_pos: session.current_pos,
                seq: session.current_token@.len() as usize,
                attn_start_pos: (session.whole_token_list@.len() - 1) as usize,
            },
            ModelState { k_cache: old(k_cache)@, v_cache: old(v_cache)@, buffers: *old(b) },
            ModelState { k_cache: final(k_cache)@, v_cache: final(v_cache)@, buffers: *final(b) },
        ),
        caches_fit(*c, final(k_cache)@),
        caches_fit(*c, final(v_cache)@),
        buffers_have_room(*c, *final(b), session.current_token@.len() as int),
        final(b).logits.data@.len() == old(b).logits.data@.len(),
        is_shown(final(monitor).start_slot),
        are_measured(
            old(monitor).accum_times@,
            final(monitor).accum_times@,
            pass_parts(layers_passed(*c, session.current_pos as int)),
        ),
        times_grow(old(monitor).accum_times@, final(monitor).accum_times@),
        times_stay(old(monitor).accum_times@, final(monitor).accum_times@, steps_outside_forward()),
{
    let seq = session.current_token.len();
    let attn_start_pos = session.attn_start_pos();
    let ghost before = ModelState { k_cache: k_cache@, v_cache: v_cache@, buffers: *b };
    let ghost input = LayerInput {
        epsilon,
        rope_theta,
        current_pos: session.current_pos,
        seq,
        attn_start_pos,
    };
    proof {
        assert(b.q_buf.data.len() == b.q_buf.data@.len());
        assert forall|t: int| 0 <= t < seq implies (#[trigger] session.current_token@[t] + 1)
            * embedding_width(m.embed_weight.data, c.hidden_dim as int) <= weight_count(
            m.embed_weight.data,
        ) by {
            lemma_embedding_room(
                m.embed_weight,
                c.vocab_size as int,
                c.hidden_dim as int,
                session.current_token@[t] as int,
            );
        }
        lemma_embedding_room(
            m.embed_weight,
            c.vocab_size as int,
            c.hidden_dim as int,
            session.current_token@[0] as int,
        );
    }
    let ghost times0 = monitor.accum_times@;
    monitor.enter();
    let _ = token_embedding(ar, &session.current_token, &m.embed_weight, &mut b.x);
    let _ = monitor.exit(FnIndex::TokenEmbedding);
    proof {
        let none = Seq::<FnIndex>::empty();
        lemma_measured_next(times0, times0, monitor.accum_times@, none, FnIndex::TokenEmbedding);
        assert(none.push(FnIndex::TokenEmbedding) =~= pass_parts(0));
    }
    let ghost x = b.x;
    let ghost start = ModelState { buffers: Buffers { x, ..before.buffers }, ..before };
    let layers: usize = if session.is_full() {
        0
    } else {
        c.layer_count
    };
    let ghost mut middle = start;
    let mut l: usize = 0;
    while l < layers
        invariant
            l <= layers,
            layers == 0 || (layers == c.layer_count && session.current_pos + seq <= MAX_SEQ_LEN),
            seq > 0,
            seq == session.current_token@.len(),
            seq <= attn_start_pos + 1,
            model_fits(*c, *m),
            caches_fit(*c, k_cache@),
            caches_fit(*c, v_cache@),
            rows_fit(*c, b.x, seq as int),
            buffers_have_room(*c, *b, seq as int),
            b.logits == before.buffers.logits,
            input == (LayerInput {
                epsilon,
                rope_theta,
                current_pos: session.current_pos,
                seq,
                attn_start_pos,
            }),
            middle == (ModelState { k_cache: k_cache@, v_cache: v_cache@, buffers: *b }),
            passes_layers(ar, *c, *m, input, l as int, start, middle),
            times0 == old(monitor).accum_times@,
            are_measured(times0, monitor.accum_times@, pass_parts(l as int)),
            times_grow(old(monitor).accum_times@, monitor.accum_times@),
            times_stay(old(monitor).accum_times@, monitor.accum_times@, steps_outside_forward()),
        decreases layers - l,
    {
        assert(layer_fits(*c, m.layers@[l as int]));
        assert(cache_fits(*c, k_cache@[l as int]));
        assert(cache_fits(*c, v_cache@[l as int]));
        let ghost times1 = monitor.accum_times@;
        layer_forward(
            ar,
            c,
            &m.layers[l],
            epsilon,
            rope_theta,
            session.current_pos,
            attn_start_pos,
            &mut k_cache[l],
            &mut v_cache[l],
            b,
            monitor,
        );
        proof {
            let n = l + 1;
            law_measuring_concatenates(
                times0,
                times1,
                monitor.accum_times@,
                pass_parts(l as int),
                layer_parts(),
            );
            let now = ModelState { k_cache: k_cache@, v_cache: v_cache@, buffers: *b };
            assert(now.k_cache =~= middle.k_cache.update(n - 1, now.k_cache[n - 1]));
            assert(now.v_cache =~= middle.v_cache.update(n - 1, now.v_cache[n - 1]));
            assert(passes_layer_at(ar, *c, *m, input, n - 1, middle, now));
            assert(passes_layers(ar, *c, *m, input, n, start, now));
            middle = now;
        }
        l += 1;
    }
    monitor.enter();
    head(ar, c, m, epsilon, &b.x, &mut b.logits);
    proof {
        let after = ModelState { k_cache: k_cache@, v_cache: v_cache@, buffers: *b };
        assert(forward_steps(
            ar,
            *c,
            *m,
            session.current_token@,
            input,
            x,
            before,
            middle,
            after,
        ));
    }
}
/// A layer keeps the keys and values of all positions but those of its step.
pub proof fn law_layer_keeps_other_positions<T: Copy, A: Arith<T>>(
    ar: &A,
    c: Config,
    w: LayerWeights<T>,
    i: LayerInput<T>,
    before: LayerState<T>,
    after: LayerState<T>,
    p: int,
)
    requires
        dims_fit(c),
        cache_fits(c, before.k_cache),
        cache_fits(c, before.v_cache),
        passes_layer(ar, c, w, i, before, after),
        i.current_pos + i.seq <= MAX_SEQ_LEN,
        buffers_have_room(c, after.buffers, i.seq as int),
        0 <= p < MAX_SEQ_LEN,
        p < i.current_pos || i.current_pos + i.seq <= p,
    ensures
        row_at(after.k_cache.data@, p, kv_width(c)) == row_at(
            before.k_cache.data@,
            p,
            kv_width(c),
        ),
        row_at(after.v_cache.data@, p, kv_width(c)) == row_at(
            before.v_cache.data@,
            p,
            kv_width(c),
        ),
{
    let t = choose|t: LayerTrace<T>| #[trigger] is_layer(ar, c, w, i, t, before, after);
    let width = kv_width(c);
    let from = i.current_pos as int;
    let n = i.seq as int;
    lemma_store_room(c, from, n, before.k_cache.data@.len() as int);
    lemma_store_room(c, from, n, before.v_cache.data@.len() as int);
    lemma_row_bounds(p, MAX_SEQ_LEN as int, width);
    law_cache_keeps_other_positions(
        before.k_cache.data@,
        after.buffers.k_buf.data@,
        from,
        n,
        width,
        p,
    );
    law_cache_keeps_other_positions(
        before.v_cache.data@,
        after.buffers.v_buf.data@,
        from,
        n,
        width,
        p,
    );
}

} // verus!
