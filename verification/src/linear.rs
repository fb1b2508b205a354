//! Embedding lookup, the biased linear projection and the element-wise kernels.
use vstd::prelude::*;
use vstd::slice::slice_subrange;

use crate::arith::{
    bf16_u16_to_f32, is_exp, is_neg, is_product, is_quotient, is_sum, of_bf16, of_bits, q8_to_f32,
    Arith, ONE_BITS,
};
use crate::dot::{dot_avx2_bf16, dot_avx2_q8, is_dot_bf16, is_dot_q8, lesser};
use crate::norm::{is_weight, lemma_row_bounds, row_at, stored_len};
use crate::tensor::{
    heads_fit, lemma_product_2, lemma_product_last, lemma_product_step, product, tails_fit, Tensor,
    WeightData, WeightTensor,
};

verus! {

// ---- Embedding ----

/// How many numbers a row of an embedding of `hidden_dim` columns yields: all of them from half
/// words, those of the whole blocks from quantized weights.
pub open spec fn embedding_width<T>(w: WeightData<T>, hidden_dim: int) -> int {
    if w is Q8 {
        hidden_dim / 32 * 32
    } else {
        hidden_dim
    }
}

/// `out` is row `id` of an embedding whose rows yield `width` numbers.
pub open spec fn is_embedding<T: Copy, A: Arith<T>>(
    ar: &A,
    w: WeightData<T>,
    id: int,
    width: int,
    out: Seq<T>,
) -> bool {
    &&& out.len() == width
    &&& forall|k: int| 0 <= k < width ==> is_weight(ar, w, id * width + k, #[trigger] out[k])
}

/// How many numbers the stored weights stand for.
pub open spec fn weight_count<T>(w: WeightData<T>) -> int {
    if w is Q8 {
        32 * (stored_len(w) as int)
    } else {
        stored_len(w) as int
    }
}

fn embed_row<T: Copy, A: Arith<T>>(
    ar: &A,
    w: &WeightData<T>,
    id: usize,
    hidden_dim: usize,
) -> (out: Vec<T>)
    requires
        !(w is F32),
        (id + 1) * embedding_width(*w, hidden_dim as int) <= weight_count(*w),
    ensures
        is_embedding(ar, *w, id as int, embedding_width(*w, hidden_dim as int), out@),
{
    let ghost width = embedding_width(*w, hidden_dim as int);
    let mut out: Vec<T> = Vec::new();
    proof {
        lemma_row_bounds(id as int, id + 1, width);
    }
    match w {
        WeightData::BF16(s) => {
            let mut k: usize = 0;
            let ghost from = id * width;
            while k < hidden_dim
                invariant
                    k <= hidden_dim,
                    *w == WeightData::<T>::BF16(*s),
                    width == hidden_dim as int,
                    from == id * width,
                    0 <= from,
                    from + width <= s.len(),
                    out@.len() == k,
                    forall|j: int| 0 <= j < k ==> is_weight(ar, *w, id * width + j, #[trigger] out@[j]),
                decreases hidden_dim - k,
            {
                let v = bf16_u16_to_f32(ar, s[id * hidden_dim + k]);
                out.push(v);
                k += 1;
            }
        },
        WeightData::Q8(s) => {
            let blocks_per_row = hidden_dim / 32;
            let ghost from = id * blocks_per_row;
            assert(id * width == 32 * from && (id + 1) * width == 32 * from + width) by (nonlinear_arith)
                requires
                    width == blocks_per_row * 32,
                    from == id * blocks_per_row,
            ;
            assert(0 <= from) by (nonlinear_arith)
                requires
                    from == id * blocks_per_row,
            ;
            assert(from + blocks_per_row <= s.len());
            let start = id * blocks_per_row;
            let mut b: usize = 0;
            while b < blocks_per_row
                invariant
                    b <= blocks_per_row,
                    *w == WeightData::<T>::Q8(*s),
                    width == blocks_per_row * 32,
                    id * width == 32 * start,
                    start + blocks_per_row <= s.len(),
                    out@.len() == 32 * b,
                    forall|j: int|
                        0 <= j < 32 * b ==> is_weight(ar, *w, id * width + j, #[trigger] out@[j]),
                decreases blocks_per_row - b,
            {
                let block = &s[start + b];
                let mut q: usize = 0;
                while q < 32
                    invariant
                        q <= 32,
                        b < blocks_per_row,
                        *w == WeightData::<T>::Q8(*s),
                        *block == s@[start + b],
                        id * width == 32 * start,
                        out@.len() == 32 * b + q,
                        forall|j: int|
                            0 <= j < 32 * b + q ==> is_weight(
                                ar,
                                *w,
                                id * width + j,
                                #[trigger] out@[j],
                            ),
                    decreases 32 - q,
                {
                    let v = q8_to_f32(ar, block.qs[q], block.d);
                    proof {
                        let k = 32 * start + (32 * b + q);
                        assert(k / 32 == start + b);
                        assert(k % 32 == q as int);
                        assert(is_weight(ar, *w, id * width + (32 * b + q), v));
                    }
                    out.push(v);
                    q += 1;
                }
                b += 1;
            }
        },
        WeightData::F32(_) => {},
    }
    out
}

/// `x` holds the rows of an embedding that the token ids name, one behind the other.
pub open spec fn is_token_embedding<T: Copy, A: Arith<T>>(
    ar: &A,
    token_ids: Seq<usize>,
    weight_tensor: WeightTensor<T>,
    x: Tensor<T>,
) -> bool {
    let width = embedding_width(weight_tensor.data, weight_tensor.shape@[1] as int);
    &&& x.wf()
    &&& x.shape@ == seq![token_ids.len() as usize, weight_tensor.shape@[1]]
    &&& x.data@.len() == token_ids.len() * width
    &&& forall|t: int|
        0 <= t < token_ids.len() ==> is_embedding(
            ar,
            weight_tensor.data,
            token_ids[t] as int,
            width,
            #[trigger] row_at(x.data@, t, width),
        )
}

/// Fills a tensor with the rows of an embedding that the token ids name, one behind the other.
pub fn token_embedding<T: Copy, A: Arith<T>>(
    ar: &A,
    token_ids: &Vec<usize>,
    weight_tensor: &WeightTensor<T>,
    x: &mut Tensor<T>,
) -> (r: Result<(), String>)
    requires
        weight_tensor.shape@.len() >= 2,
        !(weight_tensor.data is F32) ==> {
            let width = embedding_width(weight_tensor.data, weight_tensor.shape@[1] as int);
            &&& token_ids@.len() * weight_tensor.shape@[1] <= usize::MAX
            &&& forall|t: int|
                0 <= t < token_ids@.len() ==> (#[trigger] token_ids@[t] + 1) * width
                    <= weight_count(weight_tensor.data)
        },
    ensures
        weight_tensor.data is F32 <==> r is Err,
        r matches Err(e) ==> {
            &&& e@ == "cannot be f32 weight"@
            &&& final(x).data@ == Seq::<T>::empty()
            &&& final(x).shape@ == old(x).shape@
            &&& final(x).strides@ == old(x).strides@
        },
        r is Ok ==> is_token_embedding(ar, token_ids@, *weight_tensor, *final(x)),
{
    let hidden_dim = weight_tensor.shape[1];
    x.data.clear();
    match &weight_tensor.data {
        WeightData::F32(_) => {
            return Err("cannot be f32 weight".to_owned());
        },
        _ => {},
    }
    let ghost width = embedding_width(weight_tensor.data, hidden_dim as int);
    let mut data: Vec<T> = Vec::new();
    let mut t: usize = 0;
    assert(0 * width == 0);
    while t < token_ids.len()
        invariant
            t <= token_ids@.len(),
            !(weight_tensor.data is F32),
            width == embedding_width(weight_tensor.data, hidden_dim as int),
            width >= 0,
            forall|u: int|
                0 <= u < token_ids@.len() ==> (#[trigger] token_ids@[u] + 1) * width
                    <= weight_count(weight_tensor.data),
            data@.len() == t * width,
            forall|u: int|
                0 <= u < t ==> is_embedding(
                    ar,
                    weight_tensor.data,
                    token_ids@[u] as int,
                    width,
                    #[trigger] row_at(data@, u, width),
                ),
        decreases token_ids@.len() - t,
    {
        let id = token_ids[t];
        let mut row = embed_row(ar, &weight_tensor.data, id, hidden_dim);
        let ghost before = data@;
        let ghost added = row@;
        data.append(&mut row);
        proof {
            lemma_row_bounds(t as int, t + 1, width);
            assert(row_at(data@, t as int, width) =~= added);
            assert forall|u: int| 0 <= u < t implies is_embedding(
                ar,
                weight_tensor.data,
                token_ids@[u] as int,
                width,
                #[trigger] row_at(data@, u, width),
            ) by {
                lemma_row_bounds(u, t as int, width);
                assert(row_at(data@, u, width) =~= row_at(before, u, width));
            }
        }
        t += 1;
    }
    x.data = data;
    let shape: Vec<usize> = vec![token_ids.len(), hidden_dim];
    proof {
        lemma_shape_2(shape@);
        assert(shape@ =~= seq![token_ids@.len() as usize, hidden_dim]);
    }
    x.update_shape(shape);
    Ok(())
}

/// Two dimensions whose product is a machine word.
pub(crate) proof fn lemma_shape_2(shape: Seq<usize>)
    requires
        shape.len() == 2,
        shape[0] * shape[1] <= usize::MAX,
    ensures
        tails_fit(shape),
{
    lemma_product_2(shape);
    assert forall|i: int| 0 <= i <= 2 implies product(#[trigger] shape.skip(i)) <= usize::MAX by {
        if i == 0 {
            assert(shape.skip(0) =~= shape);
        } else if i == 1 {
        } else {
        }
    }
}

// ---- Rows of weights ----

/// `r` is the dot product of `x` with the stored weights from `from` to `to`, counted in half
/// words or in blocks.
pub open spec fn is_weight_dot<T: Copy, A: Arith<T>>(
    ar: &A,
    x: Seq<T>,
    w: WeightData<T>,
    from: int,
    to: int,
    r: T,
) -> bool {
    match w {
        WeightData::BF16(s) => is_dot_bf16(ar, x, s@.subrange(from, to), r),
        WeightData::Q8(s) => is_dot_q8(ar, x, s@.subrange(from, to), r),
        WeightData::F32(_) => false,
    }
}

/// The stored weights from `from` to `to` exist and can be multiplied with a row of `len` elements.
pub open spec fn can_dot<T>(w: WeightData<T>, len: int, from: int, to: int) -> bool {
    &&& 0 <= from <= to <= stored_len(w)
    &&& match w {
        WeightData::BF16(_) => len % 32 <= (to - from) % 32,
        WeightData::Q8(_) => 32 * (to - from) <= len,
        WeightData::F32(_) => false,
    }
}

pub(crate) fn weight_dot<T: Copy, A: Arith<T>>(
    ar: &A,
    x: &[T],
    w: &WeightData<T>,
    from: usize,
    to: usize,
) -> (r: T)
    requires
        can_dot(*w, x@.len() as int, from as int, to as int),
    ensures
        is_weight_dot(ar, x@, *w, from as int, to as int, r),
{
    match w {
        WeightData::BF16(s) => {
            let part = slice_subrange(s, from, to);
            dot_avx2_bf16(ar, x, part)
        },
        WeightData::Q8(s) => {
            let part = slice_subrange(s, from, to);
            dot_avx2_q8(ar, x, part)
        },
        WeightData::F32(_) => vstd::pervasive::unreached(),
    }
}

/// How many stored weights a row of `cols` columns takes: half words, or blocks of 32.
pub open spec fn stored_width<T>(w: WeightData<T>, cols: int) -> int {
    if w is Q8 {
        cols / 32
    } else {
        cols
    }
}

pub(crate) fn row_width<T>(w: &WeightData<T>, cols: usize) -> (r: usize)
    ensures
        r == stored_width(*w, cols as int),
{
    match w {
        WeightData::Q8(_) => cols / 32,
        _ => cols,
    }
}

// ---- Linear projection ----

/// The place of element `j` of row `i` where rows are `step` apart.
pub open spec fn slot(i: int, step: int, j: int) -> int {
    i * step + j
}

/// `r` is the bias at `j`: half words go with half-word weights, numbers with quantized ones.
pub open spec fn is_bias<T: Copy, A: Arith<T>>(ar: &A, b: WeightData<T>, j: int, r: T) -> bool {
    match b {
        WeightData::BF16(s) => of_bf16(ar, s@[j], r),
        WeightData::F32(s) => r == s@[j],
        WeightData::Q8(_) => false,
    }
}

/// `r` is output `j` of the projection of a row: its dot product with row `j` of the weights, plus
/// the bias at `j`.
pub open spec fn is_projected<T: Copy, A: Arith<T>>(
    ar: &A,
    x: Seq<T>,
    w: WeightData<T>,
    b: WeightData<T>,
    j: int,
    r: T,
) -> bool {
    let width = stored_width(w, x.len() as int);
    exists|s: T, c: T|
        is_weight_dot(ar, x, w, j * width, (j + 1) * width, s) && is_bias(ar, b, j, c)
            && #[trigger] is_sum(ar, s, c, r)
}

/// Bias and weights are stored in forms that go together.
pub open spec fn bias_goes_with<T>(w: WeightData<T>, b: WeightData<T>) -> bool {
    match w {
        WeightData::BF16(_) => b is BF16,
        WeightData::Q8(_) => b is F32,
        WeightData::F32(_) => false,
    }
}

/// What the projection needs: rows to read, weights and biases for every output, and room for the
/// outputs of every row.
pub open spec fn can_project<T>(
    input: Tensor<T>,
    weight: WeightTensor<T>,
    bias: WeightTensor<T>,
    q: Tensor<T>,
) -> bool {
    &&& input.shape@.len() >= 2
    &&& weight.shape@.len() >= 1
    &&& bias_goes_with(weight.data, bias.data)
    &&& {
        let row = input.shape@[0] as int;
        let in_f = input.shape@[1] as int;
        let out_f = weight.shape@[0] as int;
        &&& row * in_f <= input.data@.len()
        &&& row > 0 && out_f > 0 ==> {
            &&& out_f * stored_width(weight.data, in_f) <= stored_len(weight.data)
            &&& out_f <= stored_len(bias.data)
            &&& q.strides@.len() >= 1
            &&& slot(row - 1, q.strides@[0] as int, out_f) <= q.data@.len()
        }
    }
}

fn projected<T: Copy, A: Arith<T>>(
    ar: &A,
    x: &[T],
    w: &WeightData<T>,
    b: &WeightData<T>,
    width: usize,
    j: usize,
) -> (r: T)
    requires
        bias_goes_with(*w, *b),
        width == stored_width(*w, x@.len() as int),
        (j + 1) * width <= stored_len(*w),
        j < stored_len(*b),
    ensures
        is_projected(ar, x@, *w, *b, j as int, r),
{
    proof {
        lemma_row_bounds(j as int, j + 1, width as int);
        let len = match *w {
            WeightData::BF16(s) => s.len(),
            WeightData::Q8(s) => s.len(),
            WeightData::F32(s) => s.len(),
        };
        assert(len == stored_len(*w));
    }
    let s = weight_dot(ar, x, w, j * width, j * width + width);
    let c = match b {
        WeightData::BF16(v) => bf16_u16_to_f32(ar, v[j]),
        WeightData::F32(v) => v[j],
        WeightData::Q8(_) => vstd::pervasive::unreached(),
    };
    let r = ar.add(s, c);
    assert(is_bias(ar, *b, j as int, c));
    assert(is_sum(ar, s, c, r));
    r
}

/// What the projection does to `before`: output `j` of row `i` stands `j` places behind the start of
/// row `i`, later rows overwrite earlier ones, and the rest stays.
pub open spec fn is_linear_proj<T: Copy, A: Arith<T>>(
    ar: &A,
    input: Tensor<T>,
    weight: WeightTensor<T>,
    bias: WeightTensor<T>,
    before: Tensor<T>,
    after: Tensor<T>,
) -> bool {
    &&& after.shape@ == before.shape@
    &&& after.strides@ == before.strides@
    &&& after.data@.len() == before.data@.len()
    &&& {
        let row = input.shape@[0] as int;
        let in_f = input.shape@[1] as int;
        let out_f = weight.shape@[0] as int;
        let step = before.strides@[0] as int;
        &&& forall|i: int, j: int|
            0 <= i < row && 0 <= j < out_f && (j < step || i + 1 == row) ==> is_projected(
                ar,
                row_at(input.data@, i, in_f),
                weight.data,
                bias.data,
                j,
                after.data@[#[trigger] slot(i, step, j)],
            )
        &&& forall|p: int|
            0 <= p < before.data@.len() && (forall|i: int, j: int|
                0 <= i < row && 0 <= j < out_f ==> p != #[trigger] slot(i, step, j))
                ==> #[trigger] after.data@[p] == before.data@[p]
    }
}

/// Projects the rows of `input`: output `j` of row `i` is the dot product of the row with row `j`
/// of the weights, plus bias `j`, and goes `j` places behind the start of row `i` of `q`.
///
/// Where the rows of `q` are closer together than the outputs of one row, a later row overwrites
/// the outputs of the one before it.
pub fn linear_proj<T: Copy, A: Arith<T>>(
    ar: &A,
    input: &Tensor<T>,
    weight: &WeightTensor<T>,
    bias: &WeightTensor<T>,
    q: &mut Tensor<T>,
) -> (r: Result<(), String>)
    requires
        can_project(*input, *weight, *bias, *old(q)),
    ensures
        r is Ok,
        is_linear_proj(ar, *input, *weight, *bias, *old(q), *final(q)),
{
    let row = input.shape[0];
    let in_f = input.shape[1];
    let out_f = weight.shape[0];
    if row == 0 || out_f == 0 {
        return Ok(());
    }
    let width = row_width(&weight.data, in_f);
    let step = q.strides[0];
    let ghost data0 = q.data@;
    let mut i: usize = 0;
    while i < row
        invariant
            i <= row,
            row > 0,
            out_f > 0,
            bias_goes_with(weight.data, bias.data),
            row * in_f <= input.data.len(),
            width == stored_width(weight.data, in_f as int),
            out_f * width <= stored_len(weight.data),
            out_f <= stored_len(bias.data),
            q.shape@ == old(q).shape@,
            q.strides@ == old(q).strides@,
            q.data@.len() == data0.len(),
            slot(row - 1, step as int, out_f as int) <= data0.len(),
            forall|u: int, j: int|
                0 <= u < i && 0 <= j < out_f && (j < step || u + 1 == i) ==> is_projected(
                    ar,
                    row_at(input.data@, u, in_f as int),
                    weight.data,
                    bias.data,
                    j,
                    q.data@[#[trigger] slot(u, step as int, j)],
                ),
            forall|p: int|
                0 <= p < data0.len() && (forall|u: int, j: int|
                    0 <= u < row && 0 <= j < out_f ==> p != #[trigger] slot(u, step as int, j))
                    ==> #[trigger] q.data@[p] == data0[p],
        decreases row - i,
    {
        proof {
            lemma_row_bounds(i as int, row as int, in_f as int);
            lemma_row_bounds(i as int, row as int, step as int);
            assert(i * step <= (row - 1) * step) by (nonlinear_arith)
                requires
                    i < row,
                    step >= 0,
            ;
        }
        let x = slice_subrange(input.data.as_slice(), i * in_f, i * in_f + in_f);
        assert(x@ =~= row_at(input.data@, i as int, in_f as int));
        assert(q.data.len() == data0.len());
        let mut j: usize = 0;
        while j < out_f
            invariant
                i < row,
                j <= out_f,
                x@ == row_at(input.data@, i as int, in_f as int),
                x@.len() == in_f,
                bias_goes_with(weight.data, bias.data),
                width == stored_width(weight.data, in_f as int),
                out_f * width <= stored_len(weight.data),
                out_f <= stored_len(bias.data),
                q.shape@ == old(q).shape@,
                q.strides@ == old(q).strides@,
                q.data@.len() == data0.len(),
                0 <= i * step,
                i * step + out_f <= q.data.len(),
                forall|u: int, k: int|
                    0 <= u < i && 0 <= k < out_f && k < step ==> is_projected(
                        ar,
                        row_at(input.data@, u, in_f as int),
                        weight.data,
                        bias.data,
                        k,
                        q.data@[#[trigger] slot(u, step as int, k)],
                    ),
                forall|k: int|
                    0 <= k < j ==> is_projected(
                        ar,
                        x@,
                        weight.data,
                        bias.data,
                        k,
                        q.data@[#[trigger] slot(i as int, step as int, k)],
                    ),
                forall|p: int|
                    0 <= p < data0.len() && (forall|u: int, k: int|
                        0 <= u < row && 0 <= k < out_f ==> p != #[trigger] slot(
                            u,
                            step as int,
                            k,
                        )) ==> #[trigger] q.data@[p] == data0[p],
            decreases out_f - j,
        {
            proof {
                lemma_row_bounds(j as int, out_f as int, width as int);
            }
            let r = projected(ar, x, &weight.data, &bias.data, width, j);
            let at = i * step + j;
            let ghost before = q.data@;
            q.data[at] = r;
            proof {
                assert(at == slot(i as int, step as int, j as int));
                assert forall|u: int, k: int|
                    0 <= u < i && 0 <= k < out_f && k < step implies is_projected(
                    ar,
                    row_at(input.data@, u, in_f as int),
                    weight.data,
                    bias.data,
                    k,
                    q.data@[#[trigger] slot(u, step as int, k)],
                ) by {
                    assert(0 <= slot(u, step as int, k) < at) by (nonlinear_arith)
                        requires
                            0 <= u < i,
                            0 <= k < step,
                            at == i * step + j,
                            slot(u, step as int, k) == u * step + k,
                            0 <= j,
                    ;
                    assert(q.data@[slot(u, step as int, k)] == before[slot(u, step as int, k)]);
                }
                assert forall|k: int| 0 <= k < j + 1 implies is_projected(
                    ar,
                    x@,
                    weight.data,
                    bias.data,
                    k,
                    q.data@[#[trigger] slot(i as int, step as int, k)],
                ) by {
                    if k < j {
                        assert(q.data@[slot(i as int, step as int, k)] == before[slot(
                            i as int,
                            step as int,
                            k,
                        )]);
                    }
                }
            }
            j += 1;
        }
        i += 1;
    }
    Ok(())
}

// ---- Element-wise kernels ----

/// `after` is `before` with the elements of `attn_final` added, as far as both go.
pub open spec fn is_res_conn<T: Copy, A: Arith<T>>(
    ar: &A,
    before: Tensor<T>,
    attn_final: Tensor<T>,
    after: Tensor<T>,
) -> bool {
    &&& after.shape@ == before.shape@
    &&& after.strides@ == before.strides@
    &&& after.data@.len() == before.data@.len()
    &&& forall|k: int|
        0 <= k < lesser(product(before.shape@) as int, attn_final.data@.len() as int)
            ==> is_sum(
            ar,
            before.data@[k],
            attn_final.data@[k],
            #[trigger] after.data@[k],
        )
    &&& forall|k: int|
        lesser(product(before.shape@) as int, attn_final.data@.len() as int) <= k
            < before.data@.len() ==> #[trigger] after.data@[k] == before.data@[k]
}

/// Adds the elements of `attn_final` to those of `x` that its shape names, as far as both go.
pub fn res_conn<T: Copy, A: Arith<T>>(ar: &A, x: &mut Tensor<T>, attn_final: &Tensor<T>)
    requires
        heads_fit(old(x).shape@),
        product(old(x).shape@) <= old(x).data@.len(),
    ensures
        is_res_conn(ar, *old(x), *attn_final, *final(x)),
{
    let valid = leading_count(&x.shape);
    let n = if valid <= attn_final.data.len() {
        valid
    } else {
        attn_final.data.len()
    };
    let ghost data0 = x.data@;
    let mut k: usize = 0;
    while k < n
        invariant
            k <= n,
            n <= data0.len(),
            n <= attn_final.data@.len(),
            x.shape@ == old(x).shape@,
            x.strides@ == old(x).strides@,
            x.data@.len() == data0.len(),
            forall|j: int|
                0 <= j < k ==> is_sum(
                    ar,
                    data0[j],
                    attn_final.data@[j],
                    #[trigger] x.data@[j],
                ),
            forall|j: int| k <= j < data0.len() ==> #[trigger] x.data@[j] == data0[j],
        decreases n - k,
    {
        let r = ar.add(x.data[k], attn_final.data[k]);
        assert(is_sum(ar, data0[k as int], attn_final.data@[k as int], r));
        x.data[k] = r;
        k += 1;
    }
}

fn leading_count(shape: &Vec<usize>) -> (n: usize)
    requires
        heads_fit(shape@),
    ensures
        n as nat == product(shape@),
{
    let mut n: usize = 1;
    let mut i: usize = 0;
    assert(shape@.take(0).len() == 0);
    while i < shape.len()
        invariant
            i <= shape@.len(),
            heads_fit(shape@),
            n as nat == product(shape@.take(i as int)),
        decreases shape@.len() - i,
    {
        proof {
            let next = shape@.take(i + 1);
            lemma_product_last(next);
            assert(next.drop_last() =~= shape@.take(i as int));
            assert(product(next) <= usize::MAX);
        }
        n = n * shape[i];
        i += 1;
    }
    assert(shape@.take(shape@.len() as int) =~= shape@);
    n
}

/// The number of elements that the shape of a tensor names.
pub(crate) fn element_count<T>(t: &Tensor<T>) -> (n: usize)
    requires
        tails_fit(t.shape@),
    ensures
        n as nat == product(t.shape@),
{
    let mut n: usize = 1;
    let mut i: usize = t.shape.len();
    assert(t.shape@.skip(i as int).len() == 0);
    while i > 0
        invariant
            i <= t.shape@.len(),
            tails_fit(t.shape@),
            n as nat == product(t.shape@.skip(i as int)),
        decreases i,
    {
        i = i - 1;
        proof {
            lemma_product_step(t.shape@, i as int);
            assert(product(t.shape@.skip(i as int)) <= usize::MAX);
            assert(n as nat * t.shape@[i as int] as nat == t.shape@[i as int] as nat * n as nat)
                by (nonlinear_arith);
        }
        n = n * t.shape[i];
    }
    assert(t.shape@.skip(0) =~= t.shape@);
    n
}

/// The intermediate numbers of `x / (1 + exp(-x)) * u`.
pub open spec fn silu_steps<T: Copy, A: Arith<T>>(
    ar: &A,
    x: T,
    u: T,
    minus: T,
    power: T,
    one: T,
    below: T,
    gate: T,
    r: T,
) -> bool {
    &&& is_neg(ar, x, minus)
    &&& is_exp(ar, minus, power)
    &&& of_bits(ar, ONE_BITS, one)
    &&& is_sum(ar, one, power, below)
    &&& is_quotient(ar, x, below, gate)
    &&& is_product(ar, gate, u, r)
}

/// `r` is `x / (1 + exp(-x)) * u`.
pub open spec fn is_silu<T: Copy, A: Arith<T>>(ar: &A, x: T, u: T, r: T) -> bool {
    exists|minus: T, power: T, one: T, below: T, gate: T|
        silu_steps(ar, x, u, minus, power, one, below, gate, r)
}

/// `after` is `before` with each element `x` replaced by `x / (1 + exp(-x)) * u`, as far as `before`
/// and `up` go.
pub open spec fn is_silu_mul<T: Copy, A: Arith<T>>(
    ar: &A,
    before: Tensor<T>,
    up: Tensor<T>,
    after: Tensor<T>,
) -> bool {
    &&& after.shape@ == before.shape@
    &&& after.strides@ == before.strides@
    &&& after.data@.len() == before.data@.len()
    &&& forall|k: int|
        0 <= k < lesser(before.data@.len() as int, up.data@.len() as int) ==> is_silu(
            ar,
            before.data@[k],
            up.data@[k],
            #[trigger] after.data@[k],
        )
    &&& forall|k: int|
        lesser(before.data@.len() as int, up.data@.len() as int) <= k
            < before.data@.len() ==> #[trigger] after.data@[k] == before.data@[k]
}

/// Replaces each element `x` of `weight` by `x / (1 + exp(-x)) * u`, with `u` at the same place of
/// `up`, as far as both go.
pub fn silu<T: Copy, A: Arith<T>>(ar: &A, weight: &mut Tensor<T>, up: &Tensor<T>)
    ensures
        is_silu_mul(ar, *old(weight), *up, *final(weight)),
{
    let n = if weight.data.len() <= up.data.len() {
        weight.data.len()
    } else {
        up.data.len()
    };
    let ghost data0 = weight.data@;
    let mut k: usize = 0;
    while k < n
        invariant
            k <= n,
            n <= data0.len(),
            n <= up.data@.len(),
            weight.shape@ == old(weight).shape@,
            weight.strides@ == old(weight).strides@,
            weight.data@.len() == data0.len(),
            forall|j: int|
                0 <= j < k ==> is_silu(ar, data0[j], up.data@[j], #[trigger] weight.data@[j]),
            forall|j: int| k <= j < data0.len() ==> #[trigger] weight.data@[j] == data0[j],
        decreases n - k,
    {
        let x = weight.data[k];
        let minus = ar.neg(x);
        let power = ar.exp(minus);
        let one = ar.from_bits(ONE_BITS);
        let below = ar.add(one, power);
        let gate = ar.div(x, below);
        let r = ar.mul(gate, up.data[k]);
        assert(silu_steps(ar, x, up.data@[k as int], minus, power, one, below, gate, r));
        weight.data[k] = r;
        k += 1;
    }
}

} // verus!
