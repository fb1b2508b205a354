//! The weights of a model and the tensors that it works on: what fits together, and how the
//! tensors are allocated.
use vstd::arithmetic::div_mod::{lemma_div_is_ordered_by_denominator, lemma_fundamental_div_mod};
use vstd::prelude::*;

use crate::arith::{of_bits, Arith, ZERO_BITS};
use crate::linear::{bias_goes_with, lemma_shape_2, row_width, stored_width};
use crate::norm::{can_scale, stored_len, weight_len};
use crate::session::{Config, MAX_SEQ_LEN};
use crate::tensor::{
    lemma_product_1, lemma_product_2, lemma_product_3, product, row_major, tails_fit, Tensor,
    WeightData, WeightTensor,
};

verus! {

/// The weights of a layer.
pub struct LayerWeights<'a, T> {
    pub input_layernorm: WeightTensor<'a, T>,
    pub q_weight: WeightTensor<'a, T>,
    pub q_bias: WeightTensor<'a, T>,
    pub k_weight: WeightTensor<'a, T>,
    pub k_bias: WeightTensor<'a, T>,
    pub v_weight: WeightTensor<'a, T>,
    pub v_bias: WeightTensor<'a, T>,
    pub o_proj: WeightTensor<'a, T>,
    pub post_attn_layernorm: WeightTensor<'a, T>,
    pub mlp_gate: WeightTensor<'a, T>,
    pub mlp_up: WeightTensor<'a, T>,
    pub mlp_down: WeightTensor<'a, T>,
}

/// The tensors that a step works on.
pub struct Buffers<T> {
    pub x: Tensor<T>,
    pub q_buf: Tensor<T>,
    pub k_buf: Tensor<T>,
    pub v_buf: Tensor<T>,
    pub s: Tensor<T>,
    pub attn: Tensor<T>,
    pub attn_final: Tensor<T>,
    pub gate: Tensor<T>,
    pub up: Tensor<T>,
    pub ffn_x: Tensor<T>,
    pub logits: Tensor<T>,
}

// ---- What fits together ----

/// How many elements an attention head takes.
pub open spec fn head_dim_of(c: Config) -> int {
    c.hidden_dim as int / c.num_attention_heads as int
}

/// How many attention heads share a key-value head.
pub open spec fn kv_group_of(c: Config) -> int {
    c.num_attention_heads as int / c.num_key_value_heads as int
}

/// How many elements the keys of a position take.
pub open spec fn kv_width(c: Config) -> int {
    c.num_key_value_heads * head_dim_of(c)
}

/// The dimensions go together: the heads make up a row, and each has a key-value head.
pub open spec fn dims_fit(c: Config) -> bool {
    &&& c.num_attention_heads > 0
    &&& c.num_key_value_heads > 0
    &&& c.hidden_dim > 0
    &&& c.hidden_dim == c.num_attention_heads * head_dim_of(c)
    &&& kv_group_of(c) > 0
    &&& (c.num_attention_heads - 1) / kv_group_of(c) < c.num_key_value_heads
}

/// A matrix of `rows` rows and `cols` columns, with enough weights.
pub open spec fn matrix_fits<T>(w: WeightTensor<T>, rows: int, cols: int) -> bool {
    &&& w.wf()
    &&& w.shape@.len() == 2
    &&& w.shape@[0] == rows
    &&& w.shape@[1] == cols
    &&& !(w.data is F32)
    &&& w.data is Q8 ==> cols % 32 == 0
    &&& rows * stored_width(w.data, cols) <= stored_len(w.data)
}

/// A bias for `rows` outputs of a projection.
pub open spec fn bias_fits<T>(w: WeightTensor<T>, b: WeightTensor<T>, rows: int) -> bool {
    &&& bias_goes_with(w.data, b.data)
    &&& rows <= stored_len(b.data)
}

/// The weights of a layer go with the dimensions.
pub open spec fn layer_fits<T>(c: Config, w: LayerWeights<T>) -> bool {
    let hidden = c.hidden_dim as int;
    let inner = c.intermediate_size as int;
    &&& can_scale(w.input_layernorm.data, hidden)
    &&& matrix_fits(w.q_weight, hidden, hidden)
    &&& bias_fits(w.q_weight, w.q_bias, hidden)
    &&& matrix_fits(w.k_weight, kv_width(c), hidden)
    &&& bias_fits(w.k_weight, w.k_bias, kv_width(c))
    &&& matrix_fits(w.v_weight, kv_width(c), hidden)
    &&& bias_fits(w.v_weight, w.v_bias, kv_width(c))
    &&& matrix_fits(w.o_proj, hidden, hidden)
    &&& can_scale(w.post_attn_layernorm.data, hidden)
    &&& matrix_fits(w.mlp_gate, inner, hidden)
    &&& matrix_fits(w.mlp_up, inner, hidden)
    &&& matrix_fits(w.mlp_down, hidden, inner)
}

/// A cache of keys or values.
pub open spec fn cache_fits<T>(c: Config, cache: Tensor<T>) -> bool {
    &&& cache.wf()
    &&& cache.shape@.len() == 3
    &&& cache.shape@[0] == MAX_SEQ_LEN
    &&& cache.shape@[1] == c.num_key_value_heads
    &&& cache.shape@[2] == head_dim_of(c)
    &&& MAX_SEQ_LEN * kv_width(c) <= cache.data@.len()
}

/// The buffers have room for a step that takes `seq` tokens.
pub open spec fn buffers_have_room<T>(c: Config, b: Buffers<T>, seq: int) -> bool {
    let hidden = c.hidden_dim as int;
    let inner = c.intermediate_size as int;
    &&& seq * hidden <= b.q_buf.data@.len()
    &&& seq * kv_width(c) <= b.k_buf.data@.len()
    &&& seq * kv_width(c) <= b.v_buf.data@.len()
    &&& c.num_attention_heads * (seq * MAX_SEQ_LEN) <= b.s.data@.len()
    &&& seq * hidden <= b.attn.data@.len()
    &&& seq * hidden <= b.attn_final.data@.len()
    &&& seq * inner <= b.gate.data@.len()
    &&& seq * inner <= b.up.data@.len()
    &&& seq * hidden <= b.ffn_x.data@.len()
}

/// `x` holds `seq` rows.
pub open spec fn rows_fit<T>(c: Config, x: Tensor<T>, seq: int) -> bool {
    &&& x.wf()
    &&& x.shape@.len() == 2
    &&& x.shape@[0] == seq
    &&& x.shape@[1] == c.hidden_dim
    &&& x.data@.len() == seq * c.hidden_dim
}
/// The weights of a model.
pub struct Model<'a, T> {
    pub embed_weight: WeightTensor<'a, T>,
    pub norm_weight: WeightTensor<'a, T>,
    pub layers: Vec<LayerWeights<'a, T>>,
}

/// The weights of a model go with the dimensions.
pub open spec fn model_fits<T>(c: Config, m: Model<T>) -> bool {
    &&& dims_fit(c)
    &&& matrix_fits(m.embed_weight, c.vocab_size as int, c.hidden_dim as int)
    &&& can_scale(m.norm_weight.data, c.hidden_dim as int)
    &&& m.layers@.len() == c.layer_count
    &&& forall|l: int| 0 <= l < m.layers@.len() ==> layer_fits(c, #[trigger] m.layers@[l])
}

/// There is a cache for each layer.
pub open spec fn caches_fit<T>(c: Config, caches: Seq<Tensor<T>>) -> bool {
    &&& caches.len() == c.layer_count
    &&& forall|l: int| 0 <= l < caches.len() ==> cache_fits(c, #[trigger] caches[l])
}
/// The dimensions go together if and only if none is zero, the row can be divided among the heads,
/// and each head falls to a key-value head when so many heads as their quotient share one.
pub proof fn law_dims_fit(c: Config)
    ensures
        dims_fit(c) <==> {
            &&& c.num_attention_heads > 0
            &&& c.num_key_value_heads > 0
            &&& c.hidden_dim > 0
            &&& c.hidden_dim % c.num_attention_heads == 0
            &&& c.num_key_value_heads <= c.num_attention_heads
            &&& forall|h: int|
                0 <= h < c.num_attention_heads ==> #[trigger] served_by(
                    h,
                    c.num_attention_heads as int / c.num_key_value_heads as int,
                ) < c.num_key_value_heads
        },
{
    let n = c.hidden_dim as int;
    let h = c.num_attention_heads as int;
    let k = c.num_key_value_heads as int;
    if h > 0 && k > 0 {
        lemma_fundamental_div_mod(n, h);
        let d = n / h;
        assert((n == h * d) <==> (n % h == 0));
        let g = h / k;
        assert(g > 0 <==> k <= h) by (nonlinear_arith)
            requires
                g == h / k,
                h > 0,
                k > 0,
        ;
        if g > 0 {
            assert forall|x: int| 0 <= x < h implies #[trigger] served_by(x, g) <= (h - 1) / g by {
                assert(x / g <= (h - 1) / g) by (nonlinear_arith)
                    requires
                        0 <= x <= h - 1,
                        g > 0,
                ;
            }
            assert(served_by(h - 1, g) == (h - 1) / g);
        }
    }
}

/// The key-value head of head `h`, where `group` heads share one.
pub open spec fn served_by(h: int, group: int) -> int {
    h / group
}

// ---- Shapes ----

pub(crate) proof fn lemma_shape_3(shape: Seq<usize>)
    requires
        shape.len() == 3,
        shape[0] > 0,
        shape[1] > 0,
        shape[0] * (shape[1] * shape[2]) <= usize::MAX,
    ensures
        tails_fit(shape),
        product(shape) == shape[0] * (shape[1] * shape[2]),
{
    lemma_product_3(shape);
    let a = shape[0] as int;
    let b = shape[1] as int;
    let d = shape[2] as int;
    assert(d <= b * d && b * d <= a * (b * d)) by (nonlinear_arith)
        requires
            a > 0,
            b > 0,
            d >= 0,
    ;
    assert forall|i: int| 0 <= i <= 3 implies product(#[trigger] shape.skip(i)) <= usize::MAX by {
        if i == 0 {
            assert(shape.skip(0) =~= shape);
        } else if i == 1 {
        } else if i == 2 {
        } else {
            assert(i == 3);
        }
    }
}
/// The strides of a tensor of two dimensions.
pub(crate) proof fn lemma_strides_2(shape: Seq<usize>, strides: Seq<usize>)
    requires
        shape.len() == 2,
        row_major(shape, strides),
    ensures
        strides.len() == 2,
        strides[0] == shape[1],
        strides[1] == 1,
{
    lemma_product_2(shape);
    assert(strides[0] == product(shape.skip(1)));
    assert(strides[1] == product(shape.skip(2)));
}
// ---- Tests and allocation ----

impl Config {
    /// Whether the dimensions go together.
    pub fn fits(&self) -> (r: bool)
        ensures
            r == dims_fit(*self),
    {
        let heads = self.num_attention_heads;
        let kv_heads = self.num_key_value_heads;
        if heads == 0 || kv_heads == 0 || self.hidden_dim == 0 {
            return false;
        }
        let group = heads / kv_heads;
        if self.hidden_dim % heads != 0 {
            proof {
                let n = self.hidden_dim as int;
                let h = heads as int;
                lemma_fundamental_div_mod(n, h);
                assert(h * (n / h) == n / h * h) by (nonlinear_arith);
            }
            return false;
        }
        proof {
            let n = self.hidden_dim as int;
            let h = heads as int;
            lemma_fundamental_div_mod(n, h);
        }
        group > 0 && (heads - 1) / group < kv_heads
    }
}

fn scale_ok<T>(w: &WeightTensor<T>, h: usize) -> (r: bool)
    ensures
        r == can_scale(w.data, h as int),
{
    match &w.data {
        WeightData::Q8(_) => true,
        _ => h % 8 <= weight_len(&w.data) % 8,
    }
}

fn matrix_ok<T>(w: &WeightTensor<T>, rows: usize, cols: usize) -> (r: bool)
    ensures
        r == matrix_fits(*w, rows as int, cols as int),
{
    if w.shape.len() != 2 || w.strides.len() != 2 {
        return false;
    }
    proof {
        lemma_product_2(w.shape@);
        if w.wf() {
            lemma_strides_2(w.shape@, w.strides@);
            assert(product(w.shape@.skip(0)) <= usize::MAX);
            assert(w.shape@.skip(0) =~= w.shape@);
        }
    }
    if w.shape[0] != rows || w.shape[1] != cols || w.strides[0] != cols || w.strides[1] != 1 {
        return false;
    }
    match rows.checked_mul(cols) {
        Some(_) => {},
        None => {
            return false;
        },
    }
    proof {
        lemma_shape_2(w.shape@);
        assert forall|i: int| 0 <= i < 2 implies (#[trigger] w.strides@[i]) as nat == product(
            w.shape@.skip(i + 1),
        ) by {
            if i == 0 {
            } else {
                assert(i == 1);
            }
        }
        assert(w.wf());
    }
    match &w.data {
        WeightData::F32(_) => {
            return false;
        },
        WeightData::Q8(_) => {
            if cols % 32 != 0 {
                return false;
            }
        },
        WeightData::BF16(_) => {},
    }
    match rows.checked_mul(row_width(&w.data, cols)) {
        Some(n) => n <= weight_len(&w.data),
        None => {
            proof {
                let stored = stored_len(w.data);
                assert(stored <= usize::MAX) by {
                    match w.data {
                        WeightData::BF16(s) => {
                            assert(s.len() == s@.len());
                        },
                        WeightData::Q8(s) => {
                            assert(s.len() == s@.len());
                        },
                        WeightData::F32(s) => {
                            assert(s.len() == s@.len());
                        },
                    }
                }
            }
            false
        },
    }
}

fn bias_ok<T>(w: &WeightTensor<T>, b: &WeightTensor<T>, rows: usize) -> (r: bool)
    ensures
        r == bias_fits(*w, *b, rows as int),
{
    let together = match &w.data {
        WeightData::BF16(_) => match &b.data {
            WeightData::BF16(_) => true,
            _ => false,
        },
        WeightData::Q8(_) => match &b.data {
            WeightData::F32(_) => true,
            _ => false,
        },
        WeightData::F32(_) => false,
    };
    together && rows <= weight_len(&b.data)
}

impl<'a, T> LayerWeights<'a, T> {
    /// Whether the weights of the layer go with the dimensions.
    pub fn fits(&self, c: &Config) -> (r: bool)
        requires
            dims_fit(*c),
        ensures
            r == layer_fits(*c, *self),
    {
        let hidden = c.hidden_dim;
        let inner = c.intermediate_size;
        let kv_rows = match c.num_key_value_heads.checked_mul(c.head_dim()) {
            Some(kv_rows) => kv_rows,
            None => {
                return false;
            },
        };
        scale_ok(&self.input_layernorm, hidden) && matrix_ok(&self.q_weight, hidden, hidden)
            && bias_ok(&self.q_weight, &self.q_bias, hidden) && matrix_ok(
            &self.k_weight,
            kv_rows,
            hidden,
        ) && bias_ok(&self.k_weight, &self.k_bias, kv_rows) && matrix_ok(
            &self.v_weight,
            kv_rows,
            hidden,
        ) && bias_ok(&self.v_weight, &self.v_bias, kv_rows) && matrix_ok(
            &self.o_proj,
            hidden,
            hidden,
        ) && scale_ok(&self.post_attn_layernorm, hidden) && matrix_ok(
            &self.mlp_gate,
            inner,
            hidden,
        ) && matrix_ok(&self.mlp_up, inner, hidden) && matrix_ok(&self.mlp_down, hidden, inner)
    }
}

impl<'a, T> Model<'a, T> {
    /// Whether the weights of the model go with the dimensions.
    pub fn fits(&self, c: &Config) -> (r: bool)
        ensures
            r == model_fits(*c, *self),
    {
        if !c.fits() || !matrix_ok(&self.embed_weight, c.vocab_size, c.hidden_dim) || !scale_ok(
            &self.norm_weight,
            c.hidden_dim,
        ) || self.layers.len() != c.layer_count {
            return false;
        }
        let mut l: usize = 0;
        while l < self.layers.len()
            invariant
                l <= self.layers@.len(),
                dims_fit(*c),
                forall|k: int| 0 <= k < l ==> layer_fits(*c, #[trigger] self.layers@[k]),
            decreases self.layers@.len() - l,
        {
            if !self.layers[l].fits(c) {
                assert(!layer_fits(*c, self.layers@[l as int]));
                return false;
            }
            l += 1;
        }
        true
    }
}

/// Each element is zero.
pub open spec fn are_zero<T: Copy, A: Arith<T>>(ar: &A, data: Seq<T>) -> bool {
    forall|i: int| 0 <= i < data.len() ==> of_bits(ar, ZERO_BITS, #[trigger] data[i])
}

fn zeros<T: Copy, A: Arith<T>>(ar: &A, n: usize) -> (r: Vec<T>)
    ensures
        r@.len() == n,
        are_zero(ar, r@),
{
    let z = ar.from_bits(ZERO_BITS);
    let mut r: Vec<T> = Vec::new();
    let mut i: usize = 0;
    while i < n
        invariant
            i <= n,
            r@.len() == i,
            of_bits(ar, ZERO_BITS, z),
            are_zero(ar, r@),
        decreases n - i,
    {
        r.push(z);
        i += 1;
    }
    r
}

/// A tensor of zeros with `len` elements, of which the shape may name a part.
pub open spec fn is_blank<T: Copy, A: Arith<T>>(
    ar: &A,
    len: int,
    shape: Seq<usize>,
    t: Tensor<T>,
) -> bool {
    &&& t.wf()
    &&& t.shape@ == shape
    &&& t.data@.len() == len
    &&& are_zero(ar, t.data@)
}

fn blank_2<T: Copy, A: Arith<T>>(ar: &A, a: usize, b: usize) -> (r: Option<Tensor<T>>)
    ensures
        match r {
            Some(t) => is_blank(ar, a * b, seq![a, b], t),
            None => a * b > usize::MAX,
        },
{
    match a.checked_mul(b) {
        Some(len) => {
            let shape: Vec<usize> = vec![a, b];
            proof {
                assert(shape@ =~= seq![a, b]);
                lemma_shape_2(shape@);
            }
            Some(Tensor::new(zeros(ar, len), shape))
        },
        None => None,
    }
}

/// A tensor of zeros with the dimensions `a`, `b` and `d`, in a buffer of `a * (b * wide)`
/// elements.
fn blank_3<T: Copy, A: Arith<T>>(ar: &A, a: usize, b: usize, d: usize, wide: usize) -> (r: Option<
    Tensor<T>,
>)
    requires
        a > 0,
        b > 0,
        d <= wide,
    ensures
        match r {
            Some(t) => is_blank(ar, a * (b * wide), seq![a, b, d], t),
            None => a * (b * wide) > usize::MAX,
        },
{
    proof {
        assert(b * wide <= a * (b * wide)) by (nonlinear_arith)
            requires
                a > 0,
                b * wide >= 0,
        ;
        assert(a * (b * d) <= a * (b * wide)) by (nonlinear_arith)
            requires
                a > 0,
                b > 0,
                d <= wide,
        ;
    }
    let row = match b.checked_mul(wide) {
        Some(row) => row,
        None => {
            return None;
        },
    };
    match a.checked_mul(row) {
        Some(len) => {
            let shape: Vec<usize> = vec![a, b, d];
            proof {
                assert(shape@ =~= seq![a, b, d]);
                lemma_shape_3(shape@);
            }
            Some(Tensor::new(zeros(ar, len), shape))
        },
        None => None,
    }
}

/// The buffers of a session that starts with `prompt` tokens are not too large for the machine.
pub open spec fn buffer_sizes_fit(c: Config, prompt: int) -> bool {
    let hidden = c.hidden_dim as int;
    let inner = c.intermediate_size as int;
    &&& MAX_SEQ_LEN * (c.num_attention_heads * hidden) <= usize::MAX
    &&& MAX_SEQ_LEN * (c.num_key_value_heads * hidden) <= usize::MAX
    &&& c.num_attention_heads * (prompt * MAX_SEQ_LEN) <= usize::MAX
    &&& MAX_SEQ_LEN * hidden <= usize::MAX
    &&& prompt * inner <= usize::MAX
    &&& prompt * hidden <= usize::MAX
}

/// The buffers at the start of a session.
pub open spec fn are_new_buffers<T: Copy, A: Arith<T>>(
    ar: &A,
    c: Config,
    prompt: usize,
    b: Buffers<T>,
) -> bool {
    let head_dim = head_dim_of(c) as usize;
    let heads = c.num_attention_heads;
    let kv_heads = c.num_key_value_heads;
    let hidden = c.hidden_dim;
    let inner = c.intermediate_size;
    &&& is_blank(ar, MAX_SEQ_LEN * hidden, seq![0usize], b.x)
    &&& is_blank(
        ar,
        MAX_SEQ_LEN * (heads * hidden),
        seq![MAX_SEQ_LEN, heads, head_dim],
        b.q_buf,
    )
    &&& is_blank(
        ar,
        MAX_SEQ_LEN * (kv_heads * hidden),
        seq![MAX_SEQ_LEN, kv_heads, head_dim],
        b.k_buf,
    )
    &&& is_blank(
        ar,
        MAX_SEQ_LEN * (kv_heads * hidden),
        seq![MAX_SEQ_LEN, kv_heads, head_dim],
        b.v_buf,
    )
    &&& is_blank(ar, heads * (prompt * MAX_SEQ_LEN), seq![heads, prompt, MAX_SEQ_LEN], b.s)
    &&& is_blank(ar, MAX_SEQ_LEN * hidden, seq![MAX_SEQ_LEN, hidden], b.attn)
    &&& is_blank(ar, MAX_SEQ_LEN * hidden, seq![MAX_SEQ_LEN, hidden], b.attn_final)
    &&& is_blank(ar, prompt * inner, seq![prompt, inner], b.gate)
    &&& is_blank(ar, prompt * inner, seq![prompt, inner], b.up)
    &&& is_blank(ar, prompt * hidden, seq![prompt, hidden], b.ffn_x)
    &&& is_blank(ar, c.vocab_size as int, seq![c.vocab_size], b.logits)
}

impl<T: Copy> Buffers<T> {
    /// The buffers of a session that starts with `prompt` tokens, if they are not too large for
    /// the machine.
    pub fn new<A: Arith<T>>(ar: &A, c: &Config, prompt: usize) -> (r: Option<Buffers<T>>)
        requires
            dims_fit(*c),
            prompt > 0,
        ensures
            match r {
                Some(b) => buffer_sizes_fit(*c, prompt as int) && are_new_buffers(
                    ar,
                    *c,
                    prompt,
                    b,
                ),
                None => !buffer_sizes_fit(*c, prompt as int),
            },
    {
        let head_dim = c.head_dim();
        let heads = c.num_attention_heads;
        let kv_heads = c.num_key_value_heads;
        let hidden = c.hidden_dim;
        let inner = c.intermediate_size;
        proof {
            lemma_div_is_ordered_by_denominator(hidden as int, 1, heads as int);
            assert(head_dim <= hidden);
        }
        let row: Vec<usize> = vec![0];
        let flat: Vec<usize> = vec![c.vocab_size];
        proof {
            assert(row@ =~= seq![0usize]);
            assert(flat@ =~= seq![c.vocab_size]);
            lemma_shape_1(row@);
            lemma_shape_1(flat@);
        }
        let q_buf = blank_3(ar, MAX_SEQ_LEN, heads, head_dim, hidden);
        let k_buf = blank_3(ar, MAX_SEQ_LEN, kv_heads, head_dim, hidden);
        let v_buf = blank_3(ar, MAX_SEQ_LEN, kv_heads, head_dim, hidden);
        let s = blank_3(ar, heads, prompt, MAX_SEQ_LEN, MAX_SEQ_LEN);
        let attn = blank_2(ar, MAX_SEQ_LEN, hidden);
        let attn_final = blank_2(ar, MAX_SEQ_LEN, hidden);
        let gate = blank_2(ar, prompt, inner);
        let up = blank_2(ar, prompt, inner);
        let ffn_x = blank_2(ar, prompt, hidden);
        match (q_buf, k_buf, v_buf, s, attn, attn_final, gate, up, ffn_x) {
            (
                Some(q_buf),
                Some(k_buf),
                Some(v_buf),
                Some(s),
                Some(attn),
                Some(attn_final),
                Some(gate),
                Some(up),
                Some(ffn_x),
            ) => {
                proof {
                    assert(q_buf.data.len() == q_buf.data@.len());
                    assert(k_buf.data.len() == k_buf.data@.len());
                    assert(s.data.len() == s.data@.len());
                    assert(attn.data.len() == attn.data@.len());
                    assert(gate.data.len() == gate.data@.len());
                    assert(ffn_x.data.len() == ffn_x.data@.len());
                }
                let x = Tensor::new(zeros(ar, MAX_SEQ_LEN * hidden), row);
                let logits = Tensor::new(zeros(ar, c.vocab_size), flat);
                Some(
                    Buffers {
                        x,
                        q_buf,
                        k_buf,
                        v_buf,
                        s,
                        attn,
                        attn_final,
                        gate,
                        up,
                        ffn_x,
                        logits,
                    },
                )
            },
            _ => None,
        }
    }
}

proof fn lemma_shape_1(shape: Seq<usize>)
    requires
        shape.len() == 1,
    ensures
        tails_fit(shape),
{
    lemma_product_1(shape);
    assert forall|i: int| 0 <= i <= 1 implies product(#[trigger] shape.skip(i)) <= usize::MAX by {
        if i == 0 {
            assert(shape.skip(0) =~= shape);
        } else {
            assert(i == 1);
        }
    }
}

/// New buffers have room for each step of their session: one that takes no more tokens than the
/// first, and no more than the caches hold.
pub proof fn law_new_buffers_have_room<T: Copy, A: Arith<T>>(
    ar: &A,
    c: Config,
    prompt: usize,
    b: Buffers<T>,
    seq: int,
)
    requires
        dims_fit(c),
        are_new_buffers(ar, c, prompt, b),
        0 < seq <= prompt,
        seq <= MAX_SEQ_LEN,
    ensures
        buffers_have_room(c, b, seq),
        c.vocab_size <= b.logits.data@.len(),
{
    let heads = c.num_attention_heads as int;
    let kv = c.num_key_value_heads as int;
    let d = head_dim_of(c);
    let hidden = c.hidden_dim as int;
    let inner = c.intermediate_size as int;
    assert(seq * hidden <= MAX_SEQ_LEN * hidden && seq * hidden <= MAX_SEQ_LEN * (heads * hidden)
        && seq * hidden <= prompt * hidden && seq * inner <= prompt * inner) by (nonlinear_arith)
        requires
            0 < seq <= prompt,
            seq <= MAX_SEQ_LEN,
            heads > 0,
            hidden >= 0,
            inner >= 0,
    ;
    assert(0 <= d <= hidden) by (nonlinear_arith)
        requires
            hidden == heads * d,
            heads > 0,
            hidden > 0,
    ;
    assert(seq * (kv * d) <= MAX_SEQ_LEN * (kv * hidden)) by (nonlinear_arith)
        requires
            0 < seq <= MAX_SEQ_LEN,
            0 <= kv,
            0 <= d <= hidden,
    ;
    assert(heads * (seq * MAX_SEQ_LEN) <= heads * (prompt * MAX_SEQ_LEN)) by (nonlinear_arith)
        requires
            0 < seq <= prompt,
            heads > 0,
    ;
}

/// The caches of keys or values at the start of a session, if they are not too large for the
/// machine.
pub fn new_caches<T: Copy, A: Arith<T>>(ar: &A, c: &Config) -> (r: Option<Vec<Tensor<T>>>)
    requires
        dims_fit(*c),
    ensures
        match r {
            Some(caches) => caches_fit(*c, caches@) && forall|l: int|
                0 <= l < caches@.len() ==> is_blank(
                    ar,
                    MAX_SEQ_LEN * kv_width(*c),
                    seq![MAX_SEQ_LEN, c.num_key_value_heads, head_dim_of(*c) as usize],
                    #[trigger] caches@[l],
                ),
            None => MAX_SEQ_LEN * kv_width(*c) > usize::MAX,
        },
{
    let head_dim = c.head_dim();
    let mut caches: Vec<Tensor<T>> = Vec::new();
    let mut l: usize = 0;
    while l < c.layer_count
        invariant
            l <= c.layer_count,
            dims_fit(*c),
            head_dim == head_dim_of(*c),
            caches@.len() == l,
            forall|k: int|
                0 <= k < l ==> cache_fits(*c, #[trigger] caches@[k]) && is_blank(
                    ar,
                    MAX_SEQ_LEN * kv_width(*c),
                    seq![MAX_SEQ_LEN, c.num_key_value_heads, head_dim_of(*c) as usize],
                    caches@[k],
                ),
        decreases c.layer_count - l,
    {
        match blank_3(ar, MAX_SEQ_LEN, c.num_key_value_heads, head_dim, head_dim) {
            Some(cache) => {
                caches.push(cache);
            },
            None => {
                return None;
            },
        }
        l += 1;
    }
    Some(caches)
}

} // verus!
