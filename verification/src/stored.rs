//! The weights of a model as they are read from a file, by their names.
use vstd::prelude::*;

use crate::arith::Arith;
use crate::json::{json_of, member_of};
use crate::loader::SafttensorsLoader;
use crate::model::{LayerWeights, Model};
use crate::session::{layer_weight, layer_weight_name};
use crate::tensor::{tails_fit, WeightData, WeightTensor};
use crate::weights::{is_weight_read, StoredData, StoredWeight};

verus! {

/// The weights of a layer, as they were read.
pub struct StoredLayer<T> {
    pub input_layernorm: StoredWeight<T>,
    pub q_weight: StoredWeight<T>,
    pub q_bias: StoredWeight<T>,
    pub k_weight: StoredWeight<T>,
    pub k_bias: StoredWeight<T>,
    pub v_weight: StoredWeight<T>,
    pub v_bias: StoredWeight<T>,
    pub o_proj: StoredWeight<T>,
    pub post_attn_layernorm: StoredWeight<T>,
    pub mlp_gate: StoredWeight<T>,
    pub mlp_up: StoredWeight<T>,
    pub mlp_down: StoredWeight<T>,
}

/// The weights of a model, as they were read.
pub struct StoredModel<T> {
    pub embed: StoredWeight<T>,
    pub norm: StoredWeight<T>,
    pub layers: Vec<StoredLayer<T>>,
}

/// Why a weight was not read, with its name.
pub struct Unread {
    pub name: String,
    pub reason: String,
}

/// `r` is what the file gives for a name.
pub open spec fn is_read<T: Copy, A: Arith<T>>(
    ar: &A,
    loader: SafttensorsLoader,
    name: Seq<char>,
    r: Result<StoredWeight<T>, String>,
) -> bool {
    is_weight_read(
        ar,
        member_of(json_of(loader.metadata), name),
        loader.mmap@,
        loader.header_size as int,
        r,
    )
}

/// `w` is the weight that the file gives for a part of a layer.
pub open spec fn is_part<T: Copy, A: Arith<T>>(
    ar: &A,
    loader: SafttensorsLoader,
    layer: int,
    part: Seq<char>,
    w: StoredWeight<T>,
) -> bool {
    is_read(ar, loader, layer_weight_name(layer as nat, part), Ok::<StoredWeight<T>, String>(w))
}

/// `s` are the weights that the file gives for a layer.
pub open spec fn is_layer_read<T: Copy, A: Arith<T>>(
    ar: &A,
    loader: SafttensorsLoader,
    layer: int,
    s: StoredLayer<T>,
) -> bool {
    &&& is_part(ar, loader, layer, "input_layernorm.weight"@, s.input_layernorm)
    &&& is_part(ar, loader, layer, "self_attn.q_proj.weight"@, s.q_weight)
    &&& is_part(ar, loader, layer, "self_attn.q_proj.bias"@, s.q_bias)
    &&& is_part(ar, loader, layer, "self_attn.k_proj.weight"@, s.k_weight)
    &&& is_part(ar, loader, layer, "self_attn.k_proj.bias"@, s.k_bias)
    &&& is_part(ar, loader, layer, "self_attn.v_proj.weight"@, s.v_weight)
    &&& is_part(ar, loader, layer, "self_attn.v_proj.bias"@, s.v_bias)
    &&& is_part(ar, loader, layer, "self_attn.o_proj.weight"@, s.o_proj)
    &&& is_part(ar, loader, layer, "post_attention_layernorm.weight"@, s.post_attn_layernorm)
    &&& is_part(ar, loader, layer, "mlp.gate_proj.weight"@, s.mlp_gate)
    &&& is_part(ar, loader, layer, "mlp.up_proj.weight"@, s.mlp_up)
    &&& is_part(ar, loader, layer, "mlp.down_proj.weight"@, s.mlp_down)
}

/// The parts of a layer.
pub open spec fn part_names() -> Seq<Seq<char>> {
    seq![
        "input_layernorm.weight"@,
        "self_attn.q_proj.weight"@,
        "self_attn.q_proj.bias"@,
        "self_attn.k_proj.weight"@,
        "self_attn.k_proj.bias"@,
        "self_attn.v_proj.weight"@,
        "self_attn.v_proj.bias"@,
        "self_attn.o_proj.weight"@,
        "post_attention_layernorm.weight"@,
        "mlp.gate_proj.weight"@,
        "mlp.up_proj.weight"@,
        "mlp.down_proj.weight"@,
    ]
}

/// The name of a weight of a model with so many layers.
pub open spec fn is_weight_name(layer_count: int, name: Seq<char>) -> bool {
    ||| name == "model.embed_tokens.weight"@
    ||| name == "model.norm.weight"@
    ||| exists|layer: int, k: int|
        0 <= layer < layer_count && 0 <= k < part_names().len() && name
            == #[trigger] layer_weight_name(layer as nat, part_names()[k])
}

/// The file gives no weight for a name that the model needs.
pub open spec fn is_unread<T: Copy, A: Arith<T>>(
    ar: &A,
    loader: SafttensorsLoader,
    layer_count: int,
    e: Unread,
) -> bool {
    &&& is_weight_name(layer_count, e.name@)
    &&& is_read(ar, loader, e.name@, Err::<StoredWeight<T>, String>(e.reason))
}

/// `t` is the tensor of a weight.
pub open spec fn is_tensor_of<T>(w: StoredWeight<T>, t: WeightTensor<T>) -> bool {
    &&& t.wf()
    &&& t.shape@ == w.shape@
    &&& match w.data {
        StoredData::BF16(words) => t.data matches WeightData::BF16(s) && s@ == words@,
        StoredData::Q8(blocks) => t.data matches WeightData::Q8(s) && s@ == blocks@,
        StoredData::F32(numbers) => t.data matches WeightData::F32(s) && s@ == numbers@,
    }
}

/// `w` are the tensors of the weights of a layer.
pub open spec fn are_tensors_of<T>(s: StoredLayer<T>, w: LayerWeights<T>) -> bool {
    &&& is_tensor_of(s.input_layernorm, w.input_layernorm)
    &&& is_tensor_of(s.q_weight, w.q_weight)
    &&& is_tensor_of(s.q_bias, w.q_bias)
    &&& is_tensor_of(s.k_weight, w.k_weight)
    &&& is_tensor_of(s.k_bias, w.k_bias)
    &&& is_tensor_of(s.v_weight, w.v_weight)
    &&& is_tensor_of(s.v_bias, w.v_bias)
    &&& is_tensor_of(s.o_proj, w.o_proj)
    &&& is_tensor_of(s.post_attn_layernorm, w.post_attn_layernorm)
    &&& is_tensor_of(s.mlp_gate, w.mlp_gate)
    &&& is_tensor_of(s.mlp_up, w.mlp_up)
    &&& is_tensor_of(s.mlp_down, w.mlp_down)
}

fn read_weight<T: Copy, A: Arith<T>>(ar: &A, loader: &SafttensorsLoader, name: String) -> (r: Result<
    StoredWeight<T>,
    Unread,
>)
    ensures
        match r {
            Ok(w) => is_read(ar, *loader, name@, Ok::<StoredWeight<T>, String>(w)) && tails_fit(
                w.shape@,
            ),
            Err(e) => e.name@ == name@ && is_read(
                ar,
                *loader,
                name@,
                Err::<StoredWeight<T>, String>(e.reason),
            ),
        },
{
    match loader.get_weight_matrix(ar, name.as_str()) {
        Ok(w) => Ok(w),
        Err(reason) => Err(Unread { name, reason }),
    }
}

fn read_part<T: Copy, A: Arith<T>>(
    ar: &A,
    loader: &SafttensorsLoader,
    layer: usize,
    part: &str,
) -> (r: Result<StoredWeight<T>, Unread>)
    ensures
        match r {
            Ok(w) => is_part(ar, *loader, layer as int, part@, w) && tails_fit(w.shape@),
            Err(e) => e.name@ == layer_weight_name(layer as nat, part@) && is_read(
                ar,
                *loader,
                e.name@,
                Err::<StoredWeight<T>, String>(e.reason),
            ),
        },
{
    read_weight(ar, loader, layer_weight(layer, part))
}

proof fn lemma_part_named(layer_count: int, layer: int, k: int, name: Seq<char>)
    requires
        0 <= layer < layer_count,
        0 <= k < part_names().len(),
        name == layer_weight_name(layer as nat, part_names()[k]),
    ensures
        is_weight_name(layer_count, name),
{
}

impl<T> StoredLayer<T> {
    /// The dimensions of each weight are those of a tensor.
    pub open spec fn wf(self) -> bool {
        &&& tails_fit(self.input_layernorm.shape@)
        &&& tails_fit(self.q_weight.shape@)
        &&& tails_fit(self.q_bias.shape@)
        &&& tails_fit(self.k_weight.shape@)
        &&& tails_fit(self.k_bias.shape@)
        &&& tails_fit(self.v_weight.shape@)
        &&& tails_fit(self.v_bias.shape@)
        &&& tails_fit(self.o_proj.shape@)
        &&& tails_fit(self.post_attn_layernorm.shape@)
        &&& tails_fit(self.mlp_gate.shape@)
        &&& tails_fit(self.mlp_up.shape@)
        &&& tails_fit(self.mlp_down.shape@)
    }

    /// The weights as tensors.
    pub fn tensors<'a>(&'a self) -> (r: LayerWeights<'a, T>)
        requires
            self.wf(),
        ensures
            are_tensors_of(*self, r),
    {
        LayerWeights {
            input_layernorm: self.input_layernorm.tensor(),
            q_weight: self.q_weight.tensor(),
            q_bias: self.q_bias.tensor(),
            k_weight: self.k_weight.tensor(),
            k_bias: self.k_bias.tensor(),
            v_weight: self.v_weight.tensor(),
            v_bias: self.v_bias.tensor(),
            o_proj: self.o_proj.tensor(),
            post_attn_layernorm: self.post_attn_layernorm.tensor(),
            mlp_gate: self.mlp_gate.tensor(),
            mlp_up: self.mlp_up.tensor(),
            mlp_down: self.mlp_down.tensor(),
        }
    }
}

impl<T: Copy> StoredLayer<T> {
    /// Reads the weights of a layer.
    pub fn read<A: Arith<T>>(ar: &A, loader: &SafttensorsLoader, layer: usize) -> (r: Result<
        StoredLayer<T>,
        Unread,
    >)
        ensures
            match r {
                Ok(s) => is_layer_read(ar, *loader, layer as int, s) && s.wf(),
                Err(e) => is_unread::<T, A>(ar, *loader, layer + 1, e),
            },
    {
        let input_layernorm = match read_part(ar, loader, layer, "input_layernorm.weight") {
            Ok(w) => w,
            Err(e) => {
                proof {
                    lemma_part_named(layer + 1, layer as int, 0, e.name@);
                }
                return Err(e);
            },
        };
        let q_weight = match read_part(ar, loader, layer, "self_attn.q_proj.weight") {
            Ok(w) => w,
            Err(e) => {
                proof {
                    lemma_part_named(layer + 1, layer as int, 1, e.name@);
                }
                return Err(e);
            },
        };
        let q_bias = match read_part(ar, loader, layer, "self_attn.q_proj.bias") {
            Ok(w) => w,
            Err(e) => {
                proof {
                    lemma_part_named(layer + 1, layer as int, 2, e.name@);
                }
                return Err(e);
            },
        };
        let k_weight = match read_part(ar, loader, layer, "self_attn.k_proj.weight") {
            Ok(w) => w,
            Err(e) => {
                proof {
                    lemma_part_named(layer + 1, layer as int, 3, e.name@);
                }
                return Err(e);
            },
        };
        let k_bias = match read_part(ar, loader, layer, "self_attn.k_proj.bias") {
            Ok(w) => w,
            Err(e) => {
                proof {
                    lemma_part_named(layer + 1, layer as int, 4, e.name@);
                }
                return Err(e);
            },
        };
        let v_weight = match read_part(ar, loader, layer, "self_attn.v_proj.weight") {
            Ok(w) => w,
            Err(e) => {
                proof {
                    lemma_part_named(layer + 1, layer as int, 5, e.name@);
                }
                return Err(e);
            },
        };
        let v_bias = match read_part(ar, loader, layer, "self_attn.v_proj.bias") {
            Ok(w) => w,
            Err(e) => {
                proof {
                    lemma_part_named(layer + 1, layer as int, 6, e.name@);
                }
                return Err(e);
            },
        };
        let o_proj = match read_part(ar, loader, layer, "self_attn.o_proj.weight") {
            Ok(w) => w,
            Err(e) => {
                proof {
                    lemma_part_named(layer + 1, layer as int, 7, e.name@);
                }
                return Err(e);
            },
        };
        let post_attn_layernorm = match read_part(ar, loader, layer, "post_attention_layernorm.weight") {
            Ok(w) => w,
            Err(e) => {
                proof {
                    lemma_part_named(layer + 1, layer as int, 8, e.name@);
                }
                return Err(e);
            },
        };
        let mlp_gate = match read_part(ar, loader, layer, "mlp.gate_proj.weight") {
            Ok(w) => w,
            Err(e) => {
                proof {
                    lemma_part_named(layer + 1, layer as int, 9, e.name@);
                }
                return Err(e);
            },
        };
        let mlp_up = match read_part(ar, loader, layer, "mlp.up_proj.weight") {
            Ok(w) => w,
            Err(e) => {
                proof {
                    lemma_part_named(layer + 1, layer as int, 10, e.name@);
                }
                return Err(e);
            },
        };
        let mlp_down = match read_part(ar, loader, layer, "mlp.down_proj.weight") {
            Ok(w) => w,
            Err(e) => {
                proof {
                    lemma_part_named(layer + 1, layer as int, 11, e.name@);
                }
                return Err(e);
            },
        };
        Ok(
            StoredLayer {
                input_layernorm,
                q_weight,
                q_bias,
                k_weight,
                k_bias,
                v_weight,
                v_bias,
                o_proj,
                post_attn_layernorm,
                mlp_gate,
                mlp_up,
                mlp_down,
            },
        )
    }
}

impl<T> StoredModel<T> {
    /// The dimensions of each weight are those of a tensor.
    pub open spec fn wf(self) -> bool {
        &&& tails_fit(self.embed.shape@)
        &&& tails_fit(self.norm.shape@)
        &&& forall|i: int| 0 <= i < self.layers@.len() ==> (#[trigger] self.layers@[i]).wf()
    }

    /// The weights as tensors.
    pub fn model<'a>(&'a self) -> (r: Model<'a, T>)
        requires
            self.wf(),
        ensures
            is_tensor_of(self.embed, r.embed_weight),
            is_tensor_of(self.norm, r.norm_weight),
            r.layers@.len() == self.layers@.len(),
            forall|i: int|
                0 <= i < r.layers@.len() ==> are_tensors_of(
                    self.layers@[i],
                    #[trigger] r.layers@[i],
                ),
    {
        let mut layers: Vec<LayerWeights<'a, T>> = Vec::new();
        let mut i: usize = 0;
        while i < self.layers.len()
            invariant
                i <= self.layers@.len(),
                self.wf(),
                layers@.len() == i,
                forall|k: int|
                    0 <= k < i ==> are_tensors_of(self.layers@[k], #[trigger] layers@[k]),
            decreases self.layers@.len() - i,
        {
            assert(self.layers@[i as int].wf());
            layers.push(self.layers[i].tensors());
            i += 1;
        }
        Model { embed_weight: self.embed.tensor(), norm_weight: self.norm.tensor(), layers }
    }
}

impl<T: Copy> StoredModel<T> {
    /// Reads the weights of a model with so many layers.
    pub fn read<A: Arith<T>>(ar: &A, loader: &SafttensorsLoader, layer_count: usize) -> (r: Result<
        StoredModel<T>,
        Unread,
    >)
        ensures
            match r {
                Ok(s) => {
                    &&& s.wf()
                    &&& is_read(
                        ar,
                        *loader,
                        "model.embed_tokens.weight"@,
                        Ok::<StoredWeight<T>, String>(s.embed),
                    )
                    &&& is_read(
                        ar,
                        *loader,
                        "model.norm.weight"@,
                        Ok::<StoredWeight<T>, String>(s.norm),
                    )
                    &&& s.layers@.len() == layer_count
                    &&& forall|i: int|
                        0 <= i < layer_count ==> is_layer_read(
                            ar,
                            *loader,
                            i,
                            #[trigger] s.layers@[i],
                        )
                },
                Err(e) => is_unread::<T, A>(ar, *loader, layer_count as int, e),
            },
    {
        let embed = match read_weight(ar, loader, "model.embed_tokens.weight".to_owned()) {
            Ok(w) => w,
            Err(e) => {
                return Err(e);
            },
        };
        let norm = match read_weight(ar, loader, "model.norm.weight".to_owned()) {
            Ok(w) => w,
            Err(e) => {
                return Err(e);
            },
        };
        let mut layers: Vec<StoredLayer<T>> = Vec::new();
        let mut i: usize = 0;
        while i < layer_count
            invariant
                i <= layer_count,
                layers@.len() == i,
                forall|k: int|
                    0 <= k < i ==> is_layer_read(ar, *loader, k, #[trigger] layers@[k])
                        && layers@[k].wf(),
            decreases layer_count - i,
        {
            match StoredLayer::read(ar, loader, i) {
                Ok(s) => {
                    layers.push(s);
                },
                Err(e) => {
                    return Err(e);
                },
            }
            i += 1;
        }
        Ok(StoredModel { embed, norm, layers })
    }
}

} // verus!
