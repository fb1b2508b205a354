//! Which weight of a model stands in a file under which name.
use vstd::prelude::*;

use crate::arith::Arith;
use crate::loader::SafttensorsLoader;
use crate::model::LayerWeights;
use crate::session::{decimal, layer_weight_name};
use crate::stored::{
    are_tensors_of, is_layer_read, is_part, is_read, is_tensor_of, StoredLayer,
};
use crate::tensor::WeightTensor;
use crate::weights::StoredWeight;

verus! {

/// `t` is the tensor that a file holds under a name.
pub open spec fn is_named<T: Copy, A: Arith<T>>(
    ar: &A,
    loader: SafttensorsLoader,
    name: Seq<char>,
    t: WeightTensor<T>,
) -> bool {
    exists|w: StoredWeight<T>|
        is_read(ar, loader, name, Ok::<StoredWeight<T>, String>(w)) && #[trigger] is_tensor_of(
            w,
            t,
        )
}

/// The names of the weights of layer `n` begin in the same way, with its number.
pub open spec fn of_layer(n: nat, part: Seq<char>) -> Seq<char> {
    "model.layers."@ + decimal(n) + "."@ + part
}

proof fn lemma_named<T: Copy, A: Arith<T>>(
    ar: &A,
    loader: SafttensorsLoader,
    layer: int,
    part: Seq<char>,
    w: StoredWeight<T>,
    t: WeightTensor<T>,
)
    requires
        0 <= layer,
        is_part(ar, loader, layer, part, w),
        is_tensor_of(w, t),
    ensures
        is_named(ar, loader, of_layer(layer as nat, part), t),
{
    assert(layer_weight_name(layer as nat, part) == of_layer(layer as nat, part));
}

/// What attention takes from a layer stands under the names of its projections.
pub proof fn law_attention_weights_by_name<T: Copy, A: Arith<T>>(
    ar: &A,
    loader: SafttensorsLoader,
    layer: int,
    s: StoredLayer<T>,
    w: LayerWeights<T>,
)
    requires
        0 <= layer,
        is_layer_read(ar, loader, layer, s),
        are_tensors_of(s, w),
    ensures
        ({
            let n = layer as nat;
            &&& is_named(ar, loader, of_layer(n, "input_layernorm.weight"@), w.input_layernorm)
            &&& is_named(ar, loader, of_layer(n, "self_attn.q_proj.weight"@), w.q_weight)
            &&& is_named(ar, loader, of_layer(n, "self_attn.q_proj.bias"@), w.q_bias)
            &&& is_named(ar, loader, of_layer(n, "self_attn.k_proj.weight"@), w.k_weight)
            &&& is_named(ar, loader, of_layer(n, "self_attn.k_proj.bias"@), w.k_bias)
            &&& is_named(ar, loader, of_layer(n, "self_attn.v_proj.weight"@), w.v_weight)
            &&& is_named(ar, loader, of_layer(n, "self_attn.v_proj.bias"@), w.v_bias)
            &&& is_named(ar, loader, of_layer(n, "self_attn.o_proj.weight"@), w.o_proj)
        }),
{
    lemma_named(
        ar,
        loader,
        layer,
        "input_layernorm.weight"@,
        s.input_layernorm,
        w.input_layernorm,
    );
    lemma_named(ar, loader, layer, "self_attn.q_proj.weight"@, s.q_weight, w.q_weight);
    lemma_named(ar, loader, layer, "self_attn.q_proj.bias"@, s.q_bias, w.q_bias);
    lemma_named(ar, loader, layer, "self_attn.k_proj.weight"@, s.k_weight, w.k_weight);
    lemma_named(ar, loader, layer, "self_attn.k_proj.bias"@, s.k_bias, w.k_bias);
    lemma_named(ar, loader, layer, "self_attn.v_proj.weight"@, s.v_weight, w.v_weight);
    lemma_named(ar, loader, layer, "self_attn.v_proj.bias"@, s.v_bias, w.v_bias);
    lemma_named(ar, loader, layer, "self_attn.o_proj.weight"@, s.o_proj, w.o_proj);
}

/// What the feed-forward block takes from a layer stands under the names of its projections.
pub proof fn law_feed_forward_weights_by_name<T: Copy, A: Arith<T>>(
    ar: &A,
    loader: SafttensorsLoader,
    layer: int,
    s: StoredLayer<T>,
    w: LayerWeights<T>,
)
    requires
        0 <= layer,
        is_layer_read(ar, loader, layer, s),
        are_tensors_of(s, w),
    ensures
        ({
            let n = layer as nat;
            &&& is_named(
                ar,
                loader,
                of_layer(n, "post_attention_layernorm.weight"@),
                w.post_attn_layernorm,
            )
            &&& is_named(ar, loader, of_layer(n, "mlp.gate_proj.weight"@), w.mlp_gate)
            &&& is_named(ar, loader, of_layer(n, "mlp.up_proj.weight"@), w.mlp_up)
            &&& is_named(ar, loader, of_layer(n, "mlp.down_proj.weight"@), w.mlp_down)
        }),
{
    lemma_named(
        ar,
        loader,
        layer,
        "post_attention_layernorm.weight"@,
        s.post_attn_layernorm,
        w.post_attn_layernorm,
    );
    lemma_named(ar, loader, layer, "mlp.gate_proj.weight"@, s.mlp_gate, w.mlp_gate);
    lemma_named(ar, loader, layer, "mlp.up_proj.weight"@, s.mlp_up, w.mlp_up);
    lemma_named(ar, loader, layer, "mlp.down_proj.weight"@, s.mlp_down, w.mlp_down);
}

} // verus!
