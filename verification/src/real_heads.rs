//! What attention computes within a layer, over the reals: which keys and values a query reads.
use vstd::prelude::*;

use crate::arith::Arith;
use crate::attention::{is_masked_score, lemma_strides_3};
use crate::forward::{is_layer, passes_layer, LayerInput, LayerState, LayerTrace};
use crate::model::{dims_fit, head_dim_of, kv_group_of, kv_width, LayerWeights};
use crate::norm::lemma_row_bounds;
use crate::real_attention::{
    law_positions_are_stored, law_scores, law_softmax, law_weighted_sum, weight_of,
};
use crate::real_dot::lemma_sum_same;
use crate::real_layer::{is_ready, lemma_head_dim};
use crate::reals::{line_is_numbers, reads, row_is_numbers, sum, times, Reading};
use crate::rope::at3;
use crate::session::Config;

verus! {

/// The keys and values of a step are stored at its positions, and those of all other positions
/// stay.
pub proof fn law_layer_stores<T: Copy, A: Arith<T>>(
    ar: &A,
    c: Config,
    w: LayerWeights<T>,
    i: LayerInput<T>,
    before: LayerState<T>,
    after: LayerState<T>,
    p: int,
    j: int,
)
    requires
        is_ready(c, w, i, before),
        passes_layer(ar, c, w, i, before, after),
        0 <= p < 2048,
        0 <= j < kv_width(c),
    ensures
        ({
            let width = c.num_key_value_heads * (c.hidden_dim as int
                / c.num_attention_heads as int);
            if i.current_pos <= p < i.current_pos + i.seq {
                &&& after.k_cache.data@[p * width + j] == after.buffers.k_buf.data@[(p
                    - i.current_pos) * width + j]
                &&& after.v_cache.data@[p * width + j] == after.buffers.v_buf.data@[(p
                    - i.current_pos) * width + j]
            } else {
                &&& after.k_cache.data@[p * width + j] == before.k_cache.data@[p * width + j]
                &&& after.v_cache.data@[p * width + j] == before.v_cache.data@[p * width + j]
            }
        }),
        after.k_cache.data@.len() == before.k_cache.data@.len(),
        after.v_cache.data@.len() == before.v_cache.data@.len(),
{
    let tr = choose|tr: LayerTrace<T>| #[trigger] is_layer(ar, c, w, i, tr, before, after);
    let width = kv_width(c);
    lemma_head_dim(c);
    lemma_row_bounds(p, 2048, width);
    assert((i.current_pos + i.seq) * width <= 2048 * width) by (nonlinear_arith)
        requires
            i.current_pos + i.seq <= 2048,
            0 <= width,
    ;
    law_positions_are_stored(
        after.buffers.k_buf,
        i.current_pos,
        c.num_key_value_heads,
        head_dim_of(c) as usize,
        before.k_cache,
        after.k_cache,
        p,
        j,
    );
    law_positions_are_stored(
        after.buffers.v_buf,
        i.current_pos,
        c.num_key_value_heads,
        head_dim_of(c) as usize,
        before.v_cache,
        after.v_cache,
        p,
        j,
    );
}

// ---- Scores and shares ----

/// The sum of the products of `dim` elements of a query with those of a key.
pub open spec fn match_of<T>(
    m: Reading<T>,
    q: Seq<T>,
    q_at: int,
    k: Seq<T>,
    k_at: int,
    dim: int,
) -> real {
    sum(|d: int| m.of(q[q_at + d]) * m.of(k[k_at + d]), dim)
}

/// The scores of a query for the first `n` keys, which lie `width` apart from `k_at` on: each is the
/// sum of the products of their elements, divided by the root of their number. None is above that
/// of the key at `top`.
pub open spec fn scores_keys<T>(
    m: Reading<T>,
    q: Seq<T>,
    q_at: int,
    k: Seq<T>,
    k_at: int,
    width: int,
    dim: int,
    n: int,
    score: spec_fn(int) -> real,
    top: int,
) -> bool {
    &&& 0 <= top < n
    &&& forall|p: int|
        0 <= p < n ==> {
            let dot = match_of(m, q, q_at, k, k_at + p * width, dim);
            &&& #[trigger] score(p) <= score(top)
            &&& score(p) * score(p) * (dim as real) == dot * dot
            &&& score(p) * dot >= 0real
        }
}

/// The elements of the first `n` keys or values of a head, which lie `width` apart from `from` on,
/// are no minus infinity.
pub open spec fn heads_are_numbers<T>(
    m: Reading<T>,
    data: Seq<T>,
    from: int,
    width: int,
    dim: int,
    n: int,
) -> bool {
    forall|p: int|
        0 <= p < n ==> row_is_numbers(m, data, from + #[trigger] times(p, width), dim)
}

proof fn lemma_top(score: spec_fn(int) -> real, n: int) -> (top: int)
    requires
        0 < n,
    ensures
        0 <= top < n,
        forall|p: int| 0 <= p < n ==> #[trigger] score(p) <= score(top),
    decreases n,
{
    if n == 1 {
        0
    } else {
        let top = lemma_top(score, n - 1);
        if score(top) < score(n - 1) {
            n - 1
        } else {
            top
        }
    }
}

proof fn lemma_sum_ends(f: spec_fn(int) -> real, n: int, k: int)
    requires
        0 <= n <= k,
        forall|d: int| n <= d < k ==> #[trigger] f(d) == 0real,
    ensures
        sum(f, k) == sum(f, n),
    decreases k,
{
    if n < k {
        lemma_sum_ends(f, n, k - 1);
        assert(f(k - 1) == 0real);
    }
}

/// A head has the key-value head of its group.
proof fn lemma_group(c: Config, g: int, j: int)
    requires
        dims_fit(c),
        0 <= g,
        0 <= j < kv_group_of(c),
        g * kv_group_of(c) + j < c.num_attention_heads,
    ensures
        g < c.num_key_value_heads,
{
    let n = kv_group_of(c);
    let last = c.num_attention_heads - 1;
    assert(g <= last / n) by (nonlinear_arith)
        requires
            g * n <= last,
            0 < n,
    ;
}

/// The element of a cache that is `d` within head `g` of position `p`.
proof fn lemma_cache_place(c: Config, g: int, p: int, d: int)
    requires
        dims_fit(c),
        0 <= g < c.num_key_value_heads,
        0 <= p < 2048,
        0 <= d < head_dim_of(c),
    ensures
        0 <= p * kv_width(c) + g * head_dim_of(c) + d < 2048 * kv_width(c),
{
    lemma_head_dim(c);
    lemma_row_bounds(g, c.num_key_value_heads as int, head_dim_of(c));
    lemma_row_bounds(p, 2048, kv_width(c));
}

/// The query of row `t` shares itself out over the keys up to its own position, `current_pos + t`:
/// with `kv_group` heads to a key head, head `g * kv_group + j` reads the keys of head `g`. Its
/// share for a key is the exponential of the key's score over the sum of them all, to which a tiny
/// part of the greatest is added, and behind its position it is zero.
pub proof fn law_layer_shares<T: Copy, A: Arith<T>>(
    ar: &A,
    m: Reading<T>,
    c: Config,
    w: LayerWeights<T>,
    i: LayerInput<T>,
    before: LayerState<T>,
    after: LayerState<T>,
    g: int,
    j: int,
    t: int,
    at: int,
)
    requires
        reads(ar, m),
        is_ready(c, w, i, before),
        passes_layer(ar, c, w, i, before, after),
        i.attn_start_pos == i.current_pos + i.seq - 1,
        0 <= g,
        0 <= j < kv_group_of(c),
        g * kv_group_of(c) + j < c.num_attention_heads,
        0 <= t < i.seq,
        0 <= at < i.current_pos + i.seq,
        row_is_numbers(
            m,
            after.buffers.q_buf.data@,
            t * c.hidden_dim + (g * kv_group_of(c) + j) * head_dim_of(c),
            head_dim_of(c),
        ),
        heads_are_numbers(
            m,
            after.k_cache.data@,
            g * head_dim_of(c),
            kv_width(c),
            head_dim_of(c),
            i.current_pos + t + 1,
        ),
    ensures
        exists|score: spec_fn(int) -> real, top: int|
            {
                let valid = i.current_pos + i.seq;
                let n = i.current_pos + t + 1;
                let h = g * kv_group_of(c) + j;
                let share = after.buffers.s.data@[h * (i.seq * valid) + t * valid + at];
                &&& #[trigger] scores_keys(
                    m,
                    after.buffers.q_buf.data@,
                    t * c.hidden_dim + (g * kv_group_of(c) + j) * head_dim_of(c),
                    after.k_cache.data@,
                    g * head_dim_of(c),
                    kv_width(c),
                    head_dim_of(c),
                    i.current_pos + t + 1,
                    score,
                    top,
                )
                &&& !m.is_low(share)
                &&& m.of(share) >= 0real
                &&& m.of(share) * (sum(|p: int| (m.exp)(score(p)), n) + 8796093real
                    / 8796093022208real * (m.exp)(score(top))) == if at < n {
                    (m.exp)(score(at))
                } else {
                    0real
                }
            },
{
    let tr = choose|tr: LayerTrace<T>| #[trigger] is_layer(ar, c, w, i, tr, before, after);
    let dim = head_dim_of(c);
    let width = kv_width(c);
    let group = kv_group_of(c) as usize;
    let h = g * kv_group_of(c) + j;
    let valid = i.current_pos + i.seq;
    let n = i.current_pos + t + 1;
    let q = after.buffers.q_buf;
    let k = after.k_cache;
    let scores = tr.scores;
    lemma_head_dim(c);
    lemma_group(c, g, j);
    law_layer_stores(ar, c, w, i, before, after, 0, 0);
    lemma_strides_3(tr.q_shaped.shape@, tr.q_shaped.strides@);
    lemma_strides_3(before.k_cache.shape@, before.k_cache.strides@);
    lemma_strides_3(scores.shape@, scores.strides@);
    let q_at = t * c.hidden_dim + h * dim;
    lemma_row_bounds(h, c.num_attention_heads as int, dim);
    lemma_row_bounds(t, i.seq as int, c.hidden_dim as int);
    assert(line_is_numbers(m, q.data@, q_at, 1, dim));
    let s_at = h * (i.seq * valid) + t * valid;
    let score = |p: int| m.of(scores.data@[s_at + p]);
    assert forall|p: int| 0 <= p < n implies !m.is_low(scores.data@[s_at + p]) && {
        let dot = match_of(m, q.data@, q_at, k.data@, g * dim + p * width, dim);
        &&& (#[trigger] score(p)) * score(p) * (dim as real) == dot * dot
        &&& score(p) * dot >= 0real
    } by {
        let k_at = p * width + g * dim;
        assert(line_is_numbers(m, k.data@, k_at, 1, dim)) by {
            assert forall|d: int| 0 <= d < dim implies 0 <= k_at + #[trigger] times(d, 1)
                < k.data@.len() && !m.is_low(k.data@[k_at + times(d, 1)]) by {
                lemma_cache_place(c, g, p, d);
                assert(row_is_numbers(m, k.data@, g * dim + times(p, width), dim));
            }
        }
        law_scores(
            ar,
            m,
            q,
            k,
            group,
            valid as usize,
            i.attn_start_pos,
            before.buffers.s,
            scores,
            g,
            j,
            t,
            p,
        );
        let a = |d: int| m.of(q.data@[q_at + d * q.strides@[2]]) * m.of(
            k.data@[k_at + d * k.strides@[2]],
        );
        let b = |d: int| m.of(q.data@[q_at + d]) * m.of(k.data@[g * dim + p * width + d]);
        assert forall|d: int| 0 <= d < dim implies #[trigger] a(d) == b(d) by {
            assert(d * 1 == d);
        }
        lemma_sum_same(a, b, dim);
    }
    let top = lemma_top(score, n);
    assert(scores_keys(
        m,
        q.data@,
        q_at,
        k.data@,
        g * dim,
        width,
        dim,
        n,
        score,
        top,
    ));
    assert forall|p: int| n <= p < valid implies m.is_low(#[trigger] scores.data@[s_at + p]) by {
        lemma_masked(ar, m, c, w, i, tr, before, after, g, j, t, p);
    }
    assert forall|d: int|
        0 <= d < valid && !m.is_low(scores.data@[s_at + #[trigger] times(d, 1)]) implies m.of(
        scores.data@[s_at + times(d, 1)],
    ) <= m.of(scores.data@[s_at + top]) by {
        assert(times(d, 1) == d);
        if d < n {
            assert(score(d) <= score(top));
        }
    }
    law_softmax(ar, m, scores, after.buffers.s, h, t, top, at);
    let step = scores.strides@[2] as int;
    let e = |d: int| weight_of(m, scores.data@[s_at + d * step]);
    let f = |p: int| (m.exp)(score(p));
    assert forall|d: int| n <= d < valid implies #[trigger] e(d) == 0real by {
        assert(d * step == d);
        assert(m.is_low(scores.data@[s_at + d]));
    }
    lemma_sum_ends(e, n, valid);
    assert forall|d: int| 0 <= d < n implies #[trigger] e(d) == f(d) by {
        assert(d * step == d);
        assert(score(d) <= score(top));
    }
    lemma_sum_same(e, f, n);
    assert(e(at) == if at < n {
        f(at)
    } else {
        0real
    });
    assert(top * step == top && at * step == at);
}

/// A key behind the position of a query scores minus infinity.
proof fn lemma_masked<T: Copy, A: Arith<T>>(
    ar: &A,
    m: Reading<T>,
    c: Config,
    w: LayerWeights<T>,
    i: LayerInput<T>,
    tr: LayerTrace<T>,
    before: LayerState<T>,
    after: LayerState<T>,
    g: int,
    j: int,
    t: int,
    p: int,
)
    requires
        reads(ar, m),
        is_ready(c, w, i, before),
        is_layer(ar, c, w, i, tr, before, after),
        i.attn_start_pos == i.current_pos + i.seq - 1,
        0 <= g,
        0 <= j < kv_group_of(c),
        g * kv_group_of(c) + j < c.num_attention_heads,
        0 <= t < i.seq,
        i.current_pos + t < p < i.current_pos + i.seq,
    ensures
        ({
            let h = g * kv_group_of(c) + j;
            let valid = i.current_pos + i.seq;
            m.is_low(tr.scores.data@[h * (i.seq * valid) + t * valid + p])
        }),
{
    let h = g * kv_group_of(c) + j;
    let scores = tr.scores;
    lemma_head_dim(c);
    lemma_strides_3(scores.shape@, scores.strides@);
    assert(0 <= h) by (nonlinear_arith)
        requires
            h == g * kv_group_of(c) + j,
            0 <= g,
            0 <= j,
            0 < kv_group_of(c),
    ;
    let r = scores.data@[at3(scores.strides@, h, t, p)];
    assert(is_masked_score(
        ar,
        after.buffers.q_buf,
        after.k_cache,
        kv_group_of(c),
        i.attn_start_pos as int,
        h,
        t,
        p,
        r,
    ));
}

/// What attention gives for head `g * kv_group + j` of row `t` is the sum of the values of head `g`,
/// position by position, each times the share that the query has for it.
pub proof fn law_layer_attends<T: Copy, A: Arith<T>>(
    ar: &A,
    m: Reading<T>,
    c: Config,
    w: LayerWeights<T>,
    i: LayerInput<T>,
    before: LayerState<T>,
    after: LayerState<T>,
    g: int,
    j: int,
    t: int,
    d: int,
)
    requires
        reads(ar, m),
        is_ready(c, w, i, before),
        passes_layer(ar, c, w, i, before, after),
        0 <= g,
        0 <= j < kv_group_of(c),
        g * kv_group_of(c) + j < c.num_attention_heads,
        0 <= t < i.seq,
        0 <= d < head_dim_of(c),
        ({
            let valid = i.current_pos + i.seq;
            let h = g * kv_group_of(c) + j;
            row_is_numbers(
                m,
                after.buffers.s.data@,
                h * (i.seq * valid) + t * valid,
                valid,
            )
        }),
        heads_are_numbers(
            m,
            after.v_cache.data@,
            g * head_dim_of(c),
            kv_width(c),
            head_dim_of(c),
            i.current_pos + i.seq,
        ),
    ensures
        ({
            let valid = i.current_pos + i.seq;
            let dim = c.hidden_dim as int / c.num_attention_heads as int;
            let width = c.num_key_value_heads * dim;
            let h = g * kv_group_of(c) + j;
            let s_at = h * (i.seq * valid) + t * valid;
            let r = after.buffers.attn.data@[t * c.hidden_dim + h * dim + d];
            &&& !m.is_low(r)
            &&& m.of(r) == sum(
                |p: int|
                    m.of(after.buffers.s.data@[s_at + p]) * m.of(
                        after.v_cache.data@[p * width + g * dim + d],
                    ),
                valid,
            )
        }),
{
    let tr = choose|tr: LayerTrace<T>| #[trigger] is_layer(ar, c, w, i, tr, before, after);
    let dim = head_dim_of(c);
    let width = kv_width(c);
    let h = g * kv_group_of(c) + j;
    let valid = i.current_pos + i.seq;
    let s = after.buffers.s;
    let v = after.v_cache;
    lemma_head_dim(c);
    lemma_group(c, g, j);
    law_layer_stores(ar, c, w, i, before, after, 0, 0);
    lemma_strides_3(before.v_cache.shape@, before.v_cache.strides@);
    lemma_strides_3(tr.scores.shape@, tr.scores.strides@);
    let s_at = h * (i.seq * valid) + t * valid;
    assert(0 <= h) by (nonlinear_arith)
        requires
            h == g * kv_group_of(c) + j,
            0 <= g,
            0 <= j,
            0 < kv_group_of(c),
    ;
    lemma_row_bounds(h, c.num_attention_heads as int, i.seq * valid);
    lemma_row_bounds(t, i.seq as int, valid);
    let heads = c.num_attention_heads as int;
    assert(heads * (i.seq * valid) <= heads * (i.seq * 2048)) by (nonlinear_arith)
        requires
            valid <= 2048,
            0 <= i.seq,
            0 <= heads,
    ;
    assert(line_is_numbers(m, s.data@, s_at, 1, valid));
    let v_at = g * dim + d * v.strides@[2];
    assert(d * 1 == d);
    assert(line_is_numbers(m, v.data@, v_at, width, valid)) by {
        assert forall|p: int| 0 <= p < valid implies 0 <= v_at + #[trigger] times(p, width)
            < v.data@.len() && !m.is_low(v.data@[v_at + times(p, width)]) by {
            lemma_cache_place(c, g, p, d);
            assert(row_is_numbers(m, v.data@, g * dim + times(p, width), dim));
        }
    }
    law_weighted_sum(
        ar,
        m,
        s,
        v,
        kv_group_of(c) as usize,
        before.buffers.attn,
        tr.attended,
        g,
        j,
        t,
        d,
    );
    let a = |p: int| m.of(s.data@[s_at + p * s.strides@[2]]) * m.of(
        v.data@[v_at + p * v.strides@[0]],
    );
    let b = |p: int| m.of(s.data@[s_at + p]) * m.of(v.data@[p * width + g * dim + d]);
    assert forall|p: int| 0 <= p < valid implies #[trigger] a(p) == b(p) by {
        assert(p * 1 == p);
    }
    lemma_sum_same(a, b, valid);
}

} // verus!
