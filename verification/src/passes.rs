//! How a step goes through the layers of a model, one behind the other.
use vstd::prelude::*;

use crate::arith::Arith;
use crate::forward::{
    forward_steps, is_forward, is_head, passes_layer, passes_layer_at, passes_layers, LayerInput,
    LayerState, ModelState,
};
use crate::linear::is_token_embedding;
use crate::model::{Buffers, LayerWeights, Model};
use crate::session::Config;
use crate::tensor::Tensor;

verus! {

/// With the weights `w`, the keys and values at `l` and the tensors of a step come from `before`
/// to `after`; all other keys and values stay.
pub open spec fn is_turn<T: Copy, A: Arith<T>>(
    ar: &A,
    c: Config,
    w: LayerWeights<T>,
    i: LayerInput<T>,
    l: int,
    before: ModelState<T>,
    after: ModelState<T>,
) -> bool {
    &&& passes_layer(
        ar,
        c,
        w,
        i,
        LayerState {
            k_cache: before.k_cache[l],
            v_cache: before.v_cache[l],
            buffers: before.buffers,
        },
        LayerState { k_cache: after.k_cache[l], v_cache: after.v_cache[l], buffers: after.buffers },
    )
    &&& after.k_cache.len() == before.k_cache.len()
    &&& after.v_cache.len() == before.v_cache.len()
    &&& forall|o: int|
        0 <= o < before.k_cache.len() && o != l ==> #[trigger] after.k_cache[o]
            == before.k_cache[o]
    &&& forall|o: int|
        0 <= o < before.v_cache.len() && o != l ==> #[trigger] after.v_cache[o]
            == before.v_cache[o]
}

/// The states between the layers: the first is `before`, the last is `after`, and each comes from
/// the one in front of it with the weights of the next entry of `layers`.
pub open spec fn are_turns<T: Copy, A: Arith<T>>(
    ar: &A,
    c: Config,
    layers: Seq<LayerWeights<T>>,
    i: LayerInput<T>,
    states: Seq<ModelState<T>>,
    before: ModelState<T>,
    after: ModelState<T>,
) -> bool {
    &&& states.len() == layers.len() + 1
    &&& states[0] == before
    &&& states[layers.len() as int] == after
    &&& forall|l: int|
        0 <= l < layers.len() ==> is_turn(
            ar,
            c,
            #[trigger] layers[l],
            i,
            l,
            states[l],
            states[l + 1],
        )
}

proof fn lemma_turn<T: Copy, A: Arith<T>>(
    ar: &A,
    c: Config,
    m: Model<T>,
    i: LayerInput<T>,
    l: int,
    before: ModelState<T>,
    after: ModelState<T>,
)
    requires
        0 <= l < m.layers@.len(),
        l < before.k_cache.len(),
        l < before.v_cache.len(),
    ensures
        passes_layer_at(ar, c, m, i, l, before, after) <==> is_turn(
            ar,
            c,
            m.layers@[l],
            i,
            l,
            before,
            after,
        ),
{
    if is_turn(ar, c, m.layers@[l], i, l, before, after) {
        assert(after.k_cache =~= before.k_cache.update(l, after.k_cache[l]));
        assert(after.v_cache =~= before.v_cache.update(l, after.v_cache[l]));
    }
}

proof fn lemma_lengths<T: Copy, A: Arith<T>>(
    ar: &A,
    c: Config,
    m: Model<T>,
    i: LayerInput<T>,
    n: int,
    before: ModelState<T>,
    after: ModelState<T>,
)
    requires
        passes_layers(ar, c, m, i, n, before, after),
        n <= before.k_cache.len(),
        n <= before.v_cache.len(),
    ensures
        after.k_cache.len() == before.k_cache.len(),
        after.v_cache.len() == before.v_cache.len(),
    decreases n,
{
    if n > 0 {
        let middle = choose|middle: ModelState<T>|
            passes_layers(ar, c, m, i, n - 1, before, middle) && #[trigger] passes_layer_at(
                ar,
                c,
                m,
                i,
                n - 1,
                middle,
                after,
            );
        lemma_lengths(ar, c, m, i, n - 1, before, middle);
    }
}

proof fn lemma_states<T: Copy, A: Arith<T>>(
    ar: &A,
    c: Config,
    m: Model<T>,
    i: LayerInput<T>,
    n: int,
    before: ModelState<T>,
    after: ModelState<T>,
) -> (states: Seq<ModelState<T>>)
    requires
        0 <= n <= m.layers@.len(),
        n <= before.k_cache.len(),
        n <= before.v_cache.len(),
        passes_layers(ar, c, m, i, n, before, after),
    ensures
        are_turns(ar, c, m.layers@.take(n), i, states, before, after),
    decreases n,
{
    let layers = m.layers@.take(n);
    if n == 0 {
        seq![before]
    } else {
        let middle = choose|middle: ModelState<T>|
            passes_layers(ar, c, m, i, n - 1, before, middle) && #[trigger] passes_layer_at(
                ar,
                c,
                m,
                i,
                n - 1,
                middle,
                after,
            );
        lemma_lengths(ar, c, m, i, n - 1, before, middle);
        let front = lemma_states(ar, c, m, i, n - 1, before, middle);
        lemma_turn(ar, c, m, i, n - 1, middle, after);
        let states = front.push(after);
        let fewer = m.layers@.take(n - 1);
        assert forall|l: int| 0 <= l < layers.len() implies is_turn(
            ar,
            c,
            #[trigger] layers[l],
            i,
            l,
            states[l],
            states[l + 1],
        ) by {
            if l < n - 1 {
                assert(fewer[l] == layers[l]);
                assert(states[l] == front[l]);
                assert(states[l + 1] == front[l + 1]);
            } else {
                assert(layers[l] == m.layers@[l]);
            }
        }
        states
    }
}

proof fn lemma_passed<T: Copy, A: Arith<T>>(
    ar: &A,
    c: Config,
    m: Model<T>,
    i: LayerInput<T>,
    n: int,
    states: Seq<ModelState<T>>,
    before: ModelState<T>,
    after: ModelState<T>,
)
    requires
        0 <= n <= m.layers@.len(),
        n <= before.k_cache.len(),
        n <= before.v_cache.len(),
        are_turns(ar, c, m.layers@.take(n), i, states, before, after),
    ensures
        passes_layers(ar, c, m, i, n, before, after),
    decreases n,
{
    let layers = m.layers@.take(n);
    if n > 0 {
        let front = states.drop_last();
        let middle = states[n - 1];
        let fewer = m.layers@.take(n - 1);
        assert forall|l: int| 0 <= l < fewer.len() implies is_turn(
            ar,
            c,
            #[trigger] fewer[l],
            i,
            l,
            front[l],
            front[l + 1],
        ) by {
            assert(fewer[l] == layers[l]);
        }
        lemma_passed(ar, c, m, i, n - 1, front, before, middle);
        lemma_lengths(ar, c, m, i, n - 1, before, middle);
        assert(layers[n - 1] == m.layers@[n - 1]);
        lemma_turn(ar, c, m, i, n - 1, middle, after);
        assert(passes_layer_at(ar, c, m, i, n - 1, middle, after));
    }
}

/// The first `n` layers lead from one state to another if and only if there are states between
/// them such that each comes from the one in front of it by the layer whose turn it is: the first
/// layer of the model with the first keys and values, the second with the second, and so on.
pub proof fn law_layers_come_in_turn<T: Copy, A: Arith<T>>(
    ar: &A,
    c: Config,
    m: Model<T>,
    i: LayerInput<T>,
    n: int,
    before: ModelState<T>,
    after: ModelState<T>,
)
    requires
        0 <= n <= m.layers@.len(),
        n <= before.k_cache.len(),
        n <= before.v_cache.len(),
    ensures
        passes_layers(ar, c, m, i, n, before, after) <==> exists|states: Seq<ModelState<T>>|
            #[trigger]
            are_turns(ar, c, m.layers@.take(n), i, states, before, after),
{
    if passes_layers(ar, c, m, i, n, before, after) {
        let states = lemma_states(ar, c, m, i, n, before, after);
        assert(are_turns(ar, c, m.layers@.take(n), i, states, before, after));
    }
    if exists|states: Seq<ModelState<T>>| #[trigger]
        are_turns(ar, c, m.layers@.take(n), i, states, before, after) {
        let states = choose|states: Seq<ModelState<T>>| #[trigger]
            are_turns(ar, c, m.layers@.take(n), i, states, before, after);
        lemma_passed(ar, c, m, i, n, states, before, after);
    }
}

/// Models whose first `n` layers are the same go through them in the same way, whatever layers
/// follow.
pub proof fn law_later_layers_do_not_matter<T: Copy, A: Arith<T>>(
    ar: &A,
    c: Config,
    m: Model<T>,
    o: Model<T>,
    i: LayerInput<T>,
    n: int,
    before: ModelState<T>,
    after: ModelState<T>,
)
    requires
        0 <= n <= m.layers@.len(),
        n <= o.layers@.len(),
        n <= before.k_cache.len(),
        n <= before.v_cache.len(),
        m.layers@.take(n) == o.layers@.take(n),
    ensures
        passes_layers(ar, c, m, i, n, before, after) == passes_layers(
            ar,
            c,
            o,
            i,
            n,
            before,
            after,
        ),
{
    law_layers_come_in_turn(ar, c, m, i, n, before, after);
    law_layers_come_in_turn(ar, c, o, i, n, before, after);
}

/// Models whose first `n` layers are the same are told apart by the next: where one of them can
/// lead from `middle` to `after` by its layer `n` and the other cannot, the first goes from there
/// to `after` and the other does not.
pub proof fn law_next_layer_matters<T: Copy, A: Arith<T>>(
    ar: &A,
    c: Config,
    m: Model<T>,
    o: Model<T>,
    i: LayerInput<T>,
    n: int,
    before: ModelState<T>,
    middle: ModelState<T>,
    after: ModelState<T>,
)
    requires
        0 <= n < m.layers@.len(),
        n < o.layers@.len(),
        n < before.k_cache.len(),
        n < before.v_cache.len(),
        m.layers@.take(n) == o.layers@.take(n),
        passes_layers(ar, c, m, i, n, before, middle),
        forall|s: ModelState<T>|
            passes_layers(ar, c, m, i, n, before, s) ==> !#[trigger] is_turn(
                ar,
                c,
                o.layers@[n],
                i,
                n,
                s,
                after,
            ),
        is_turn(ar, c, m.layers@[n], i, n, middle, after),
    ensures
        passes_layers(ar, c, m, i, n + 1, before, after),
        !passes_layers(ar, c, o, i, n + 1, before, after),
{
    lemma_lengths(ar, c, m, i, n, before, middle);
    lemma_turn(ar, c, m, i, n, middle, after);
    if passes_layers(ar, c, o, i, n + 1, before, after) {
        let s = choose|s: ModelState<T>|
            passes_layers(ar, c, o, i, n, before, s) && #[trigger] passes_layer_at(
                ar,
                c,
                o,
                i,
                n,
                s,
                after,
            );
        law_later_layers_do_not_matter(ar, c, m, o, i, n, before, s);
        lemma_lengths(ar, c, o, i, n, before, s);
        lemma_turn(ar, c, o, i, n, s, after);
    }
}

/// A step starts with the rows of its tokens in the embedding, sends them through every layer of
/// the model in turn, and ends with the logits of what the last layer leaves. There is a row for
/// each token, and the step looks as far as the position of the last of them.
pub proof fn law_step_goes_through_every_layer<T: Copy, A: Arith<T>>(
    ar: &A,
    c: Config,
    m: Model<T>,
    tokens: Seq<usize>,
    i: LayerInput<T>,
    before: ModelState<T>,
    after: ModelState<T>,
)
    requires
        is_forward(ar, c, m, tokens, i, before, after),
        m.layers@.len() == c.layer_count,
        before.k_cache.len() == c.layer_count,
        before.v_cache.len() == c.layer_count,
        i.current_pos < 2048,
    ensures
        i.seq == tokens.len(),
        i.attn_start_pos == i.current_pos + tokens.len() - 1,
        exists|states: Seq<ModelState<T>>, first: ModelState<T>, last: ModelState<T>|
            {
                &&& #[trigger] are_turns(ar, c, m.layers@, i, states, first, last)
                &&& is_token_embedding(ar, tokens, m.embed_weight, first.buffers.x)
                &&& first.k_cache == before.k_cache
                &&& first.v_cache == before.v_cache
                &&& after.k_cache == last.k_cache
                &&& after.v_cache == last.v_cache
                &&& after.buffers.x == last.buffers.x
                &&& is_head(
                    ar,
                    c,
                    m,
                    i.epsilon,
                    last.buffers.x,
                    last.buffers.logits,
                    after.buffers.logits,
                )
            },
{
    let (x, middle) = choose|x: Tensor<T>, middle: ModelState<T>| #[trigger]
        forward_steps(ar, c, m, tokens, i, x, before, middle, after);
    let n = m.layers@.len() as int;
    let start = ModelState {
        buffers: Buffers { x, ..before.buffers },
        ..before
    };
    law_layers_come_in_turn(ar, c, m, i, n, start, middle);
    assert(m.layers@.take(n) =~= m.layers@);
    let states = choose|states: Seq<ModelState<T>>| #[trigger]
        are_turns(ar, c, m.layers@, i, states, start, middle);
    assert(are_turns(ar, c, m.layers@, i, states, start, middle));
}

/// When the caches are full, a step goes through no layer: the keys and values stay, and the
/// logits come from the row of the last token in the embedding.
pub proof fn law_full_step_goes_through_no_layer<T: Copy, A: Arith<T>>(
    ar: &A,
    c: Config,
    m: Model<T>,
    tokens: Seq<usize>,
    i: LayerInput<T>,
    before: ModelState<T>,
    after: ModelState<T>,
)
    requires
        is_forward(ar, c, m, tokens, i, before, after),
        i.current_pos >= 2048,
    ensures
        after.k_cache == before.k_cache,
        after.v_cache == before.v_cache,
        is_token_embedding(ar, tokens, m.embed_weight, after.buffers.x),
        is_head(
            ar,
            c,
            m,
            i.epsilon,
            after.buffers.x,
            before.buffers.logits,
            after.buffers.logits,
        ),
{
}

} // verus!
