//! Products with a weight matrix: the output projection of attention and the layers of the
//! feed-forward block, each on one thread or on many.
use vstd::arithmetic::div_mod::{lemma_div_is_ordered, lemma_fundamental_div_mod, lemma_fundamental_div_mod_converse};
use vstd::pervasive::unreached;
use vstd::prelude::*;
use vstd::slice::slice_subrange;

use crate::arith::{of_bits, Arith, ZERO_BITS};
use crate::linear::{can_dot, element_count, is_weight_dot, lemma_shape_2, slot, weight_dot};
use crate::norm::lemma_row_bounds;
use crate::parallel::fill_parallel;
use crate::tensor::{lemma_product_2, Tensor, WeightData, WeightTensor};

verus! {

/// From how many rows on the products are computed on many threads.
pub const RAYON_THRESHOLD: usize = 0;

/// The elements of a row that starts `i` steps in and holds `len` elements.
pub open spec fn run<T>(data: Seq<T>, i: int, step: int, len: int) -> Seq<T> {
    data.subrange(i * step, i * step + len)
}

/// Where row `k` of a weight matrix starts among the stored weights: half words lie `step` apart,
/// a row of `cols` columns takes `cols / 32` blocks.
pub open spec fn row_start<T>(w: WeightData<T>, k: int, step: int, cols: int) -> int {
    if w is Q8 {
        k * (cols / 32)
    } else {
        k * step
    }
}

/// How many stored weights of a row are used: `len` half words, or the blocks of `cols` columns.
pub open spec fn row_len<T>(w: WeightData<T>, cols: int, len: int) -> int {
    if w is Q8 {
        cols / 32
    } else {
        len
    }
}

/// `r` is the dot product of `x` with row `k` of a weight matrix.
pub open spec fn is_row_dot<T: Copy, A: Arith<T>>(
    ar: &A,
    x: Seq<T>,
    w: WeightData<T>,
    k: int,
    step: int,
    cols: int,
    len: int,
    r: T,
) -> bool {
    let from = row_start(w, k, step, cols);
    is_weight_dot(ar, x, w, from, from + row_len(w, cols, len), r)
}

/// Row `k` of a weight matrix exists and can be multiplied with a row of `n` elements.
pub open spec fn can_row_dot<T>(
    w: WeightData<T>,
    n: int,
    k: int,
    step: int,
    cols: int,
    len: int,
) -> bool {
    let from = row_start(w, k, step, cols);
    can_dot(w, n, from, from + row_len(w, cols, len))
}

fn row_dot<T: Copy, A: Arith<T>>(
    ar: &A,
    x: &[T],
    w: &WeightData<T>,
    k: usize,
    step: usize,
    cols: usize,
    len: usize,
) -> (r: T)
    requires
        can_row_dot(*w, x@.len() as int, k as int, step as int, cols as int, len as int),
    ensures
        is_row_dot(ar, x@, *w, k as int, step as int, cols as int, len as int, r),
{
    match w {
        WeightData::Q8(blocks) => {
            assert(blocks.len() == blocks@.len());
            let from = k * (cols / 32);
            weight_dot(ar, x, w, from, from + cols / 32)
        },
        WeightData::BF16(words) => {
            assert(words.len() == words@.len());
            let from = k * step;
            weight_dot(ar, x, w, from, from + len)
        },
        WeightData::F32(_) => unreached(),
    }
}

fn fill_zero<T: Copy, A: Arith<T>>(ar: &A, data: &mut Vec<T>)
    ensures
        final(data)@.len() == old(data)@.len(),
        forall|p: int| 0 <= p < old(data)@.len() ==> of_bits(ar, ZERO_BITS, #[trigger] final(data)@[p]),
{
    let z = ar.from_bits(ZERO_BITS);
    let n = data.len();
    let mut i: usize = 0;
    while i < n
        invariant
            i <= n,
            n == data@.len(),
            of_bits(ar, ZERO_BITS, z),
            forall|p: int| 0 <= p < i ==> of_bits(ar, ZERO_BITS, #[trigger] data@[p]),
        decreases n - i,
    {
        data[i] = z;
        i += 1;
    }
}

// ---- The output projection ----

/// What both forms of the output projection need first: shapes, strides and room for the result.
pub open spec fn can_shape_out<T>(attn: Tensor<T>, o: WeightTensor<T>, atten_fn: Tensor<T>) -> bool {
    &&& attn.shape@.len() >= 2
    &&& attn.strides@.len() >= 1
    &&& o.strides@.len() >= 1
    &&& attn.shape@[0] * attn.shape@[1] <= atten_fn.data@.len()
}

/// What the output projection needs on one thread.
pub open spec fn can_out_single<T>(attn: Tensor<T>, o: WeightTensor<T>, atten_fn: Tensor<T>) -> bool {
    &&& can_shape_out(attn, o, atten_fn)
    &&& o.shape@.len() >= 1
    &&& !(o.data is F32) ==> {
        let rows = attn.shape@[0] as int;
        let n = attn.shape@[1] as int;
        let out_f = o.shape@[0] as int;
        let a0 = attn.strides@[0] as int;
        let o0 = o.strides@[0] as int;
        &&& rows > 0 ==> (rows - 1) * a0 + n <= attn.data@.len()
        &&& rows > 0 && out_f > 0 ==> {
            &&& slot(rows - 1, n, out_f) <= atten_fn.data@.len()
            &&& forall|k: int| 0 <= k < out_f ==> #[trigger] can_row_dot(o.data, n, k, o0, n, n)
        }
    }
}

/// `r` is output `k` of row `i` on one thread.
pub open spec fn is_out_single<T: Copy, A: Arith<T>>(
    ar: &A,
    attn: Tensor<T>,
    o: WeightTensor<T>,
    i: int,
    k: int,
    r: T,
) -> bool {
    let n = attn.shape@[1] as int;
    is_row_dot(
        ar,
        run(attn.data@, i, attn.strides@[0] as int, n),
        o.data,
        k,
        o.strides@[0] as int,
        n,
        n,
        r,
    )
}

/// `out` is what the output projection writes on one thread: output `k` of row `i` goes `k` places
/// behind the start of row `i`, later rows overwrite earlier ones, and the rest is zero. Weights
/// stored as numbers give zeros only.
pub open spec fn projects_single<T: Copy, A: Arith<T>>(
    ar: &A,
    attn: Tensor<T>,
    o: WeightTensor<T>,
    out: Seq<T>,
) -> bool {
    let rows = attn.shape@[0] as int;
    let n = attn.shape@[1] as int;
    let out_f = if o.data is F32 {
        0
    } else {
        o.shape@[0] as int
    };
    &&& forall|i: int, k: int|
        0 <= i < rows && 0 <= k < out_f && (k < n || i + 1 == rows) ==> is_out_single(
            ar,
            attn,
            o,
            i,
            k,
            out[#[trigger] slot(i, n, k)],
        )
    &&& forall|p: int|
        0 <= p < out.len() && (forall|i: int, k: int|
            0 <= i < rows && 0 <= k < out_f ==> p != #[trigger] slot(i, n, k)) ==> of_bits(
            ar,
            ZERO_BITS,
            #[trigger] out[p],
        )
}

/// What the output projection needs on many threads.
pub open spec fn can_out_rayon<T>(attn: Tensor<T>, o: WeightTensor<T>, atten_fn: Tensor<T>) -> bool {
    &&& can_shape_out(attn, o, atten_fn)
    &&& o.shape@.len() >= 2
    &&& !(o.data is F32)
    &&& {
        let total = attn.shape@[0] * attn.shape@[1];
        let o_rows = o.shape@[0] as int;
        let cols = o.shape@[1] as int;
        let a0 = attn.strides@[0] as int;
        let o0 = o.strides@[0] as int;
        total > 0 ==> {
            &&& o_rows > 0
            &&& (total - 1) / o_rows * a0 + cols <= attn.data@.len()
            &&& forall|k: int|
                0 <= k < o_rows && k < total ==> #[trigger] can_row_dot(
                    o.data,
                    cols,
                    k,
                    o0,
                    cols,
                    cols,
                )
        }
    }
}

/// `r` is element `idx` of the output projection on many threads.
pub open spec fn is_out_rayon<T: Copy, A: Arith<T>>(
    ar: &A,
    attn: Tensor<T>,
    o: WeightTensor<T>,
    idx: int,
    r: T,
) -> bool {
    let cols = o.shape@[1] as int;
    is_row_dot(
        ar,
        run(attn.data@, idx / o.shape@[0] as int, attn.strides@[0] as int, cols),
        o.data,
        idx % o.shape@[0] as int,
        o.strides@[0] as int,
        cols,
        cols,
        r,
    )
}

/// `out` is what the output projection writes on many threads: the elements that the result's
/// shape names, each computed by itself, and zeros behind them.
pub open spec fn projects_rayon<T: Copy, A: Arith<T>>(
    ar: &A,
    attn: Tensor<T>,
    o: WeightTensor<T>,
    out: Seq<T>,
) -> bool {
    let total = attn.shape@[0] * attn.shape@[1];
    &&& forall|idx: int| 0 <= idx < total ==> is_out_rayon(ar, attn, o, idx, #[trigger] out[idx])
    &&& forall|p: int| total <= p < out.len() ==> of_bits(ar, ZERO_BITS, #[trigger] out[p])
}

/// `after` is the output projection, in the room that `before` gives.
pub open spec fn is_out_proj<T: Copy, A: Arith<T>>(
    ar: &A,
    attn: Tensor<T>,
    o: WeightTensor<T>,
    before: Tensor<T>,
    after: Tensor<T>,
) -> bool {
    &&& after.wf()
    &&& after.shape@ == seq![attn.shape@[0], attn.shape@[1]]
    &&& after.data@.len() == before.data@.len()
    &&& projects_rayon(ar, attn, o, after.data@)
}

fn shape_out<T: Copy, A: Arith<T>>(ar: &A, attn: &Tensor<T>, atten_fn: &mut Tensor<T>)
    requires
        attn.shape@.len() >= 2,
        attn.shape@[0] * attn.shape@[1] <= old(atten_fn).data@.len(),
    ensures
        final(atten_fn).wf(),
        final(atten_fn).shape@ == seq![attn.shape@[0], attn.shape@[1]],
        final(atten_fn).data@.len() == old(atten_fn).data@.len(),
        forall|p: int|
            0 <= p < old(atten_fn).data@.len() ==> of_bits(
                ar,
                ZERO_BITS,
                #[trigger] final(atten_fn).data@[p],
            ),
{
    let shape: Vec<usize> = vec![attn.shape[0], attn.shape[1]];
    proof {
        assert(atten_fn.data.len() == atten_fn.data@.len());
        lemma_shape_2(shape@);
        assert(shape@ =~= seq![attn.shape@[0], attn.shape@[1]]);
    }
    atten_fn.update_shape(shape);
    fill_zero(ar, &mut atten_fn.data);
}

/// The output projection: on many threads from a certain number of rows on.
pub fn out_proj<T: Copy + Send + Sync, A: Arith<T> + Sync>(
    ar: &A,
    attn: &Tensor<T>,
    o: &WeightTensor<T>,
    atten_fn: &mut Tensor<T>,
) -> (r: Result<(), String>)
    requires
        can_out_rayon(*attn, *o, *old(atten_fn)),
    ensures
        r is Ok,
        is_out_proj(ar, *attn, *o, *old(atten_fn), *final(atten_fn)),
{
    if attn.shape[0] >= RAYON_THRESHOLD {
        let _ = out_proj_rayon(ar, attn, o, atten_fn);
    } else {
        let _ = out_proj_single(ar, attn, o, atten_fn);
    }
    Ok(())
}

/// The output projection on one thread.
pub fn out_proj_single<T: Copy, A: Arith<T>>(
    ar: &A,
    attn: &Tensor<T>,
    o: &WeightTensor<T>,
    atten_fn: &mut Tensor<T>,
) -> (r: Result<(), String>)
    requires
        can_out_single(*attn, *o, *old(atten_fn)),
    ensures
        r is Ok,
        final(atten_fn).wf(),
        final(atten_fn).shape@ == seq![attn.shape@[0], attn.shape@[1]],
        final(atten_fn).data@.len() == old(atten_fn).data@.len(),
        projects_single(ar, *attn, *o, final(atten_fn).data@),
{
    shape_out(ar, attn, atten_fn);
    match &o.data {
        WeightData::F32(_) => {
            return Ok(());
        },
        _ => {},
    }
    let rows = attn.shape[0];
    let n = attn.shape[1];
    let out_f = o.shape[0];
    let a0 = attn.strides[0];
    let o0 = o.strides[0];
    let ghost shape0 = atten_fn.shape@;
    let ghost strides0 = atten_fn.strides@;
    let ghost len0 = atten_fn.data@.len();
    if out_f == 0 {
        return Ok(());
    }
    let mut i: usize = 0;
    while i < rows
        invariant
            i <= rows,
            out_f > 0,
            rows == attn.shape@[0],
            n == attn.shape@[1],
            out_f == o.shape@[0],
            a0 == attn.strides@[0],
            o0 == o.strides@[0],
            !(o.data is F32),
            can_out_single(*attn, *o, *old(atten_fn)),
            atten_fn.shape@ == shape0,
            atten_fn.strides@ == strides0,
            atten_fn.data@.len() == len0,
            len0 == old(atten_fn).data@.len(),
            forall|u: int, k: int|
                0 <= u < i && 0 <= k < out_f && (k < n || u + 1 == i) ==> is_out_single(
                    ar,
                    *attn,
                    *o,
                    u,
                    k,
                    atten_fn.data@[#[trigger] slot(u, n as int, k)],
                ),
            forall|p: int|
                0 <= p < len0 && (forall|u: int, k: int|
                    0 <= u < rows && 0 <= k < out_f ==> p != #[trigger] slot(u, n as int, k))
                    ==> of_bits(ar, ZERO_BITS, #[trigger] atten_fn.data@[p]),
        decreases rows - i,
    {
        proof {
            assert(0 <= i * a0 <= (rows - 1) * a0 && 0 <= i * n <= (rows - 1) * n)
                by (nonlinear_arith)
                requires
                    i < rows,
                    a0 >= 0,
                    n >= 0,
            ;
            assert(attn.data.len() == attn.data@.len());
            assert(atten_fn.data.len() == len0);
        }
        let x = slice_subrange(attn.data.as_slice(), i * a0, i * a0 + n);
        assert(x@ =~= run(attn.data@, i as int, a0 as int, n as int));
        let af_offset = i * n;
        let mut j: usize = 0;
        while j < out_f
            invariant
                i < rows,
                j <= out_f,
                rows == attn.shape@[0],
                n == attn.shape@[1],
                out_f == o.shape@[0],
                a0 == attn.strides@[0],
                o0 == o.strides@[0],
                !(o.data is F32),
                can_out_single(*attn, *o, *old(atten_fn)),
                af_offset == i * n,
                af_offset + out_f <= atten_fn.data.len(),
                x@ == run(attn.data@, i as int, a0 as int, n as int),
                x@.len() == n,
                atten_fn.shape@ == shape0,
                atten_fn.strides@ == strides0,
                atten_fn.data@.len() == len0,
                forall|u: int, k: int|
                    0 <= u < i && 0 <= k < out_f && k < n ==> is_out_single(
                        ar,
                        *attn,
                        *o,
                        u,
                        k,
                        atten_fn.data@[#[trigger] slot(u, n as int, k)],
                    ),
                forall|k: int|
                    0 <= k < j ==> is_out_single(
                        ar,
                        *attn,
                        *o,
                        i as int,
                        k,
                        atten_fn.data@[#[trigger] slot(i as int, n as int, k)],
                    ),
                forall|p: int|
                    0 <= p < len0 && (forall|u: int, k: int|
                        0 <= u < rows && 0 <= k < out_f ==> p != #[trigger] slot(u, n as int, k))
                        ==> of_bits(ar, ZERO_BITS, #[trigger] atten_fn.data@[p]),
            decreases out_f - j,
        {
            assert(can_row_dot(o.data, n as int, j as int, o0 as int, n as int, n as int));
            let r = row_dot(ar, x, &o.data, j, o0, n, n);
            let at = af_offset + j;
            let ghost before = atten_fn.data@;
            atten_fn.data[at] = r;
            proof {
                assert(at == slot(i as int, n as int, j as int));
                assert forall|u: int, k: int|
                    0 <= u < i && 0 <= k < out_f && k < n implies is_out_single(
                    ar,
                    *attn,
                    *o,
                    u,
                    k,
                    atten_fn.data@[#[trigger] slot(u, n as int, k)],
                ) by {
                    assert(0 <= slot(u, n as int, k) < at) by (nonlinear_arith)
                        requires
                            0 <= u < i,
                            0 <= k < n,
                            at == i * n + j,
                            slot(u, n as int, k) == u * n + k,
                            0 <= j,
                    ;
                    assert(atten_fn.data@[slot(u, n as int, k)] == before[slot(u, n as int, k)]);
                }
                assert forall|k: int| 0 <= k < j + 1 implies is_out_single(
                    ar,
                    *attn,
                    *o,
                    i as int,
                    k,
                    atten_fn.data@[#[trigger] slot(i as int, n as int, k)],
                ) by {
                    if k < j {
                        assert(atten_fn.data@[slot(i as int, n as int, k)] == before[slot(
                            i as int,
                            n as int,
                            k,
                        )]);
                    }
                }
            }
            j += 1;
        }
        i += 1;
    }
    Ok(())
}

/// The row of `attn` and the row of `o` for element `idx` of the result exist.
spec fn has_out_place<T>(attn: &Tensor<T>, o: &WeightTensor<T>, idx: usize) -> bool {
    &&& attn.strides@.len() >= 1
    &&& o.strides@.len() >= 1
    &&& o.shape@.len() >= 2
    &&& o.shape@[0] > 0
    &&& idx as int / o.shape@[0] as int * attn.strides@[0] + o.shape@[1] <= attn.data@.len()
    &&& can_row_dot(
        o.data,
        o.shape@[1] as int,
        idx as int % o.shape@[0] as int,
        o.strides@[0] as int,
        o.shape@[1] as int,
        o.shape@[1] as int,
    )
}

spec fn fills_out_place<T: Copy, A: Arith<T>>(
    ar: &A,
    attn: &Tensor<T>,
    o: &WeightTensor<T>,
    idx: usize,
    r: T,
) -> bool {
    is_out_rayon(ar, *attn, *o, idx as int, r)
}

fn out_cell<T: Copy, A: Arith<T>>(
    ar: &A,
    attn: &Tensor<T>,
    o: &WeightTensor<T>,
    idx: usize,
) -> (r: T)
    requires
        has_out_place(attn, o, idx),
    ensures
        fills_out_place(ar, attn, o, idx, r),
{
    let o_rows = o.shape[0];
    let cols = o.shape[1];
    let a0 = attn.strides[0];
    let i = idx / o_rows;
    let k = idx % o_rows;
    proof {
        assert(attn.data.len() == attn.data@.len());
        assert(0 <= i * a0) by (nonlinear_arith);
    }
    let x = slice_subrange(attn.data.as_slice(), i * a0, i * a0 + cols);
    row_dot(ar, x, &o.data, k, o.strides[0], cols, cols)
}

/// The output projection on many threads.
pub fn out_proj_rayon<T: Copy + Send + Sync, A: Arith<T> + Sync>(
    ar: &A,
    attn: &Tensor<T>,
    o: &WeightTensor<T>,
    atten_fn: &mut Tensor<T>,
) -> (r: Result<(), String>)
    requires
        can_out_rayon(*attn, *o, *old(atten_fn)),
    ensures
        r is Ok,
        is_out_proj(ar, *attn, *o, *old(atten_fn), *final(atten_fn)),
{
    shape_out(ar, attn, atten_fn);
    let total = element_count(atten_fn);
    proof {
        lemma_product_2(atten_fn.shape@);
        if total > 0 {
            assert forall|i: usize| i < total implies #[trigger] has_out_place(
                attn,
                o,
                i,
            ) by {
                lemma_cell_bounds(
                    i as int,
                    total as int,
                    o.shape@[0] as int,
                    attn.strides@[0] as int,
                );
                let k = i as int % o.shape@[0] as int;
                assert(can_row_dot(
                    o.data,
                    o.shape@[1] as int,
                    k,
                    o.strides@[0] as int,
                    o.shape@[1] as int,
                    o.shape@[1] as int,
                ));
            }
        }
    }
    let f = |idx: usize| -> (r: T)
        requires
            has_out_place(attn, o, idx),
        ensures
            fills_out_place(ar, attn, o, idx, r),
    {
        out_cell(ar, attn, o, idx)
    };
    fill_parallel(&mut atten_fn.data, total, 1, f);
    proof {
        assert forall|idx: int| 0 <= idx < total implies is_out_rayon(
            ar,
            *attn,
            *o,
            idx,
            #[trigger] atten_fn.data@[idx],
        ) by {
            let u = idx as usize;
            assert(atten_fn.data@[u as int] == atten_fn.data@[idx]);
        }
    }
    Ok(())
}

proof fn lemma_cell_bounds(idx: int, total: int, rows: int, step: int)
    requires
        0 <= idx < total,
        0 < rows,
        0 <= step,
    ensures
        0 <= idx / rows <= (total - 1) / rows,
        idx / rows * step <= (total - 1) / rows * step,
        0 <= idx % rows < rows,
        idx % rows < total,
{
    lemma_div_is_ordered(idx, total - 1, rows);
    lemma_fundamental_div_mod(idx, rows);
    let a = idx / rows;
    let b = (total - 1) / rows;
    assert(0 <= a) by (nonlinear_arith)
        requires
            a == idx / rows,
            0 <= idx,
            0 < rows,
    ;
    assert(a * step <= b * step) by (nonlinear_arith)
        requires
            a <= b,
            0 <= step,
    ;
    assert(idx % rows <= idx) by (nonlinear_arith)
        requires
            idx == rows * a + idx % rows,
            0 <= a,
            0 < rows,
    ;
}

/// With a square weight matrix as wide as the rows, the output projection is the same on one
/// thread and on many.
pub proof fn law_out_projections_agree<T: Copy, A: Arith<T>>(
    ar: &A,
    attn: Tensor<T>,
    o: WeightTensor<T>,
    out: Seq<T>,
)
    requires
        attn.shape@.len() == 2,
        o.shape@ == seq![attn.shape@[1], attn.shape@[1]],
        !(o.data is F32),
        attn.shape@[0] * attn.shape@[1] <= out.len(),
    ensures
        projects_single(ar, attn, o, out) <==> projects_rayon(ar, attn, o, out),
{
    let rows = attn.shape@[0] as int;
    let n = attn.shape@[1] as int;
    let total = rows * n;
    assert forall|i: int, k: int| 0 <= i < rows && 0 <= k < n implies {
        &&& 0 <= #[trigger] slot(i, n, k) < total
        &&& slot(i, n, k) / n == i
        &&& slot(i, n, k) % n == k
    } by {
        lemma_row_bounds(i, rows, n);
        lemma_fundamental_div_mod_converse(slot(i, n, k), n, i, k);
    }
    assert forall|idx: int| 0 <= idx < total implies {
        &&& n > 0
        &&& 0 <= idx / n < rows
        &&& 0 <= idx % n < n
        &&& idx == #[trigger] slot(idx / n, n, idx % n)
    } by {
        assert(n > 0) by (nonlinear_arith)
            requires
                0 <= idx < total,
                total == rows * n,
                0 <= rows,
                0 <= n,
        ;
        lemma_fundamental_div_mod(idx, n);
        let a = idx / n;
        let b = idx % n;
        assert(0 <= a < rows && n * a == a * n) by (nonlinear_arith)
            requires
                idx == n * a + b,
                0 <= b < n,
                0 <= idx < rows * n,
        ;
    }
    if projects_single(ar, attn, o, out) {
        assert forall|idx: int| 0 <= idx < total implies is_out_rayon(
            ar,
            attn,
            o,
            idx,
            #[trigger] out[idx],
        ) by {
            assert(idx == slot(idx / n, n, idx % n));
            assert(is_out_single(ar, attn, o, idx / n, idx % n, out[slot(idx / n, n, idx % n)]));
        }
        assert forall|p: int| total <= p < out.len() implies of_bits(
            ar,
            ZERO_BITS,
            #[trigger] out[p],
        ) by {
            assert forall|i: int, k: int| 0 <= i < rows && 0 <= k < n implies p != #[trigger] slot(
                i,
                n,
                k,
            ) by {}
        }
    }
    if projects_rayon(ar, attn, o, out) {
        assert forall|i: int, k: int|
            0 <= i < rows && 0 <= k < n && (k < n || i + 1 == rows) implies is_out_single(
            ar,
            attn,
            o,
            i,
            k,
            out[#[trigger] slot(i, n, k)],
        ) by {
            let idx = slot(i, n, k);
            assert(is_out_rayon(ar, attn, o, idx, out[idx]));
        }
        assert forall|p: int|
            0 <= p < out.len() && (forall|i: int, k: int|
                0 <= i < rows && 0 <= k < n ==> p != #[trigger] slot(i, n, k)) implies of_bits(
            ar,
            ZERO_BITS,
            #[trigger] out[p],
        ) by {
            if p < total {
                assert(p == slot(p / n, n, p % n));
            }
        }
    }
}

// ---- The feed-forward layers ----

/// What a feed-forward layer needs: shapes, strides, room for the result, and a row of `x` and of
/// the weights for every element of it.
pub open spec fn can_mlp<T>(x: Tensor<T>, weight: WeightTensor<T>, output: Tensor<T>) -> bool {
    &&& x.shape@.len() >= 1
    &&& x.strides@.len() >= 2
    &&& weight.shape@.len() >= 2
    &&& weight.strides@.len() >= 2
    &&& !(weight.data is F32)
    &&& x.shape@[0] * weight.shape@[0] <= output.data@.len()
    &&& x.shape@[0] * weight.shape@[0] > 0 ==> {
        let cols = weight.shape@[1] as int;
        let taken = cols * x.strides@[1];
        let used = cols * weight.strides@[1];
        &&& (x.shape@[0] - 1) * x.strides@[0] + taken <= x.data@.len()
        &&& used <= usize::MAX
        &&& forall|k: int|
            0 <= k < weight.shape@[0] ==> #[trigger] can_row_dot(
                weight.data,
                taken,
                k,
                weight.strides@[0] as int,
                cols,
                used,
            )
    }
}

/// `r` is output `k` of row `i`: the dot product of the row with row `k` of the weights.
pub open spec fn is_mlp_cell<T: Copy, A: Arith<T>>(
    ar: &A,
    x: Tensor<T>,
    weight: WeightTensor<T>,
    i: int,
    k: int,
    r: T,
) -> bool {
    let cols = weight.shape@[1] as int;
    is_row_dot(
        ar,
        run(x.data@, i, x.strides@[0] as int, cols * x.strides@[1]),
        weight.data,
        k,
        weight.strides@[0] as int,
        cols,
        cols * weight.strides@[1],
        r,
    )
}

/// `after` holds the outputs of a feed-forward layer, row behind row, and behind them what
/// `before` holds.
pub open spec fn is_mlp<T: Copy, A: Arith<T>>(
    ar: &A,
    x: Tensor<T>,
    weight: WeightTensor<T>,
    before: Seq<T>,
    after: Seq<T>,
) -> bool {
    let rows = x.shape@[0] as int;
    let outs = weight.shape@[0] as int;
    &&& after.len() == before.len()
    &&& forall|i: int, k: int|
        0 <= i < rows && 0 <= k < outs ==> is_mlp_cell(
            ar,
            x,
            weight,
            i,
            k,
            after[#[trigger] slot(i, outs, k)],
        )
    &&& forall|p: int| rows * outs <= p < before.len() ==> #[trigger] after[p] == before[p]
}

/// `after` holds the outputs of a feed-forward layer, in the room that `before` gives.
pub open spec fn is_mlp_mul<T: Copy, A: Arith<T>>(
    ar: &A,
    x: Tensor<T>,
    weight: WeightTensor<T>,
    before: Tensor<T>,
    after: Tensor<T>,
) -> bool {
    &&& after.wf()
    &&& after.shape@ == seq![x.shape@[0], weight.shape@[0]]
    &&& is_mlp(ar, x, weight, before.data@, after.data@)
}

/// A feed-forward layer: on many threads from a certain number of rows on.
pub fn mlp_mul<T: Copy + Send + Sync, A: Arith<T> + Sync>(
    ar: &A,
    x: &Tensor<T>,
    weight: &WeightTensor<T>,
    output: &mut Tensor<T>,
) -> (r: Result<(), String>)
    requires
        can_mlp(*x, *weight, *old(output)),
    ensures
        r is Ok,
        is_mlp_mul(ar, *x, *weight, *old(output), *final(output)),
{
    if x.shape[0] >= RAYON_THRESHOLD {
        let _ = mlp_mul_rayon(ar, x, weight, output);
    } else {
        let _ = mlp_mul_single(ar, x, weight, output);
    }
    Ok(())
}

fn mlp_cell<T: Copy, A: Arith<T>>(
    ar: &A,
    x: &Tensor<T>,
    weight: &WeightTensor<T>,
    i: usize,
    k: usize,
) -> (r: T)
    requires
        x.strides@.len() >= 2,
        weight.shape@.len() >= 2,
        weight.strides@.len() >= 2,
        i * x.strides@[0] + weight.shape@[1] * x.strides@[1] <= x.data@.len(),
        weight.shape@[1] * weight.strides@[1] <= usize::MAX,
        can_row_dot(
            weight.data,
            weight.shape@[1] * x.strides@[1],
            k as int,
            weight.strides@[0] as int,
            weight.shape@[1] as int,
            weight.shape@[1] * weight.strides@[1],
        ),
    ensures
        is_mlp_cell(ar, *x, *weight, i as int, k as int, r),
{
    let cols = weight.shape[1];
    let s1 = x.strides[0];
    let s2 = x.strides[1];
    let w1 = weight.strides[0];
    let w2 = weight.strides[1];
    proof {
        assert(x.data.len() == x.data@.len());
        assert(0 <= i * s1 && 0 <= cols * s2) by (nonlinear_arith);
    }
    let taken = cols * s2;
    let row = slice_subrange(x.data.as_slice(), i * s1, i * s1 + taken);
    row_dot(ar, row, &weight.data, k, w1, cols, cols * w2)
}

fn shape_mlp<T>(x: &Tensor<T>, weight: &WeightTensor<T>, output: &mut Tensor<T>)
    requires
        x.shape@.len() >= 1,
        weight.shape@.len() >= 1,
        x.shape@[0] * weight.shape@[0] <= old(output).data@.len(),
    ensures
        final(output).wf(),
        final(output).shape@ == seq![x.shape@[0], weight.shape@[0]],
        final(output).data@ == old(output).data@,
{
    let shape: Vec<usize> = vec![x.shape[0], weight.shape[0]];
    proof {
        assert(output.data.len() == output.data@.len());
        lemma_shape_2(shape@);
        assert(shape@ =~= seq![x.shape@[0], weight.shape@[0]]);
    }
    output.update_shape(shape);
}

/// A feed-forward layer on one thread.
pub fn mlp_mul_single<T: Copy, A: Arith<T>>(
    ar: &A,
    x: &Tensor<T>,
    weight: &WeightTensor<T>,
    output: &mut Tensor<T>,
) -> (r: Result<(), String>)
    requires
        can_mlp(*x, *weight, *old(output)),
    ensures
        r is Ok,
        is_mlp_mul(ar, *x, *weight, *old(output), *final(output)),
{
    shape_mlp(x, weight, output);
    let rows = x.shape[0];
    let outs = weight.shape[0];
    let ghost before = output.data@;
    let ghost shape0 = output.shape@;
    let ghost strides0 = output.strides@;
    let mut i: usize = 0;
    while i < rows
        invariant
            i <= rows,
            rows == x.shape@[0],
            outs == weight.shape@[0],
            rows * outs <= before.len(),
            can_mlp(*x, *weight, *old(output)),
            before == old(output).data@,
            output.shape@ == shape0,
            output.strides@ == strides0,
            output.data@.len() == before.len(),
            forall|u: int, j: int|
                0 <= u < i && 0 <= j < outs ==> is_mlp_cell(
                    ar,
                    *x,
                    *weight,
                    u,
                    j,
                    output.data@[#[trigger] slot(u, outs as int, j)],
                ),
            forall|p: int|
                rows * outs <= p < before.len() ==> #[trigger] output.data@[p] == before[p],
        decreases rows - i,
    {
        let mut k: usize = 0;
        while k < outs
            invariant
                i < rows,
                k <= outs,
                rows == x.shape@[0],
                outs == weight.shape@[0],
                rows * outs <= before.len(),
                can_mlp(*x, *weight, *old(output)),
                before == old(output).data@,
                output.shape@ == shape0,
                output.strides@ == strides0,
                output.data@.len() == before.len(),
                forall|u: int, j: int|
                    0 <= u < i && 0 <= j < outs ==> is_mlp_cell(
                        ar,
                        *x,
                        *weight,
                        u,
                        j,
                        output.data@[#[trigger] slot(u, outs as int, j)],
                    ),
                forall|j: int|
                    0 <= j < k ==> is_mlp_cell(
                        ar,
                        *x,
                        *weight,
                        i as int,
                        j,
                        output.data@[#[trigger] slot(i as int, outs as int, j)],
                    ),
                forall|p: int|
                    rows * outs <= p < before.len() ==> #[trigger] output.data@[p] == before[p],
            decreases outs - k,
        {
            proof {
                lemma_row_bounds(i as int, rows as int, outs as int);
                assert(rows * outs > 0) by (nonlinear_arith)
                    requires
                        i < rows,
                        k < outs,
                ;
                let s1 = x.strides@[0] as int;
                assert(i * s1 <= (rows - 1) * s1) by (nonlinear_arith)
                    requires
                        i < rows,
                        s1 >= 0,
                ;
                assert(can_row_dot(
                    weight.data,
                    weight.shape@[1] * x.strides@[1],
                    k as int,
                    weight.strides@[0] as int,
                    weight.shape@[1] as int,
                    weight.shape@[1] * weight.strides@[1],
                ));
                assert(output.data.len() == before.len());
            }
            let r = mlp_cell(ar, x, weight, i, k);
            let at = i * outs + k;
            let ghost middle = output.data@;
            output.data[at] = r;
            proof {
                assert(at == slot(i as int, outs as int, k as int));
                assert forall|u: int, j: int| 0 <= u < i && 0 <= j < outs implies is_mlp_cell(
                    ar,
                    *x,
                    *weight,
                    u,
                    j,
                    output.data@[#[trigger] slot(u, outs as int, j)],
                ) by {
                    assert(0 <= slot(u, outs as int, j) < at) by (nonlinear_arith)
                        requires
                            0 <= u < i,
                            0 <= j < outs,
                            at == i * outs + k,
                            slot(u, outs as int, j) == u * outs + j,
                            0 <= k,
                    ;
                    assert(output.data@[slot(u, outs as int, j)] == middle[slot(
                        u,
                        outs as int,
                        j,
                    )]);
                }
                assert forall|j: int| 0 <= j < k + 1 implies is_mlp_cell(
                    ar,
                    *x,
                    *weight,
                    i as int,
                    j,
                    output.data@[#[trigger] slot(i as int, outs as int, j)],
                ) by {
                    if j < k {
                        assert(output.data@[slot(i as int, outs as int, j)] == middle[slot(
                            i as int,
                            outs as int,
                            j,
                        )]);
                    }
                }
            }
            k += 1;
        }
        i += 1;
    }
    Ok(())
}

/// A feed-forward layer on many threads.
pub fn mlp_mul_rayon<T: Copy + Send + Sync, A: Arith<T> + Sync>(
    ar: &A,
    x: &Tensor<T>,
    weight: &WeightTensor<T>,
    output: &mut Tensor<T>,
) -> (r: Result<(), String>)
    requires
        can_mlp(*x, *weight, *old(output)),
    ensures
        r is Ok,
        is_mlp_mul(ar, *x, *weight, *old(output), *final(output)),
{
    shape_mlp(x, weight, output);
    let total = element_count(output);
    let rows = x.shape[0];
    let outs = weight.shape[0];
    proof {
        lemma_product_2(output.shape@);
        assert(total == rows * outs);
        if total > 0 {
            assert forall|idx: usize| idx < total implies #[trigger] has_mlp_place(
                x,
                weight,
                outs,
                idx,
            ) by {
                assert(outs > 0) by (nonlinear_arith)
                    requires
                        rows * outs > 0,
                        rows >= 0,
                        outs >= 0,
                ;
                lemma_cell_bounds(
                    idx as int,
                    total as int,
                    outs as int,
                    x.strides@[0] as int,
                );
                lemma_last_row(rows as int, outs as int);
                let k = idx as int % (outs as int);
                assert(can_row_dot(
                    weight.data,
                    weight.shape@[1] * x.strides@[1],
                    k,
                    weight.strides@[0] as int,
                    weight.shape@[1] as int,
                    weight.shape@[1] * weight.strides@[1],
                ));
            }
        }
    }
    let f = |idx: usize| -> (r: T)
        requires
            has_mlp_place(x, weight, outs, idx),
        ensures
            fills_mlp_place(ar, x, weight, idx, r),
    {
        mlp_cell(ar, x, weight, idx / outs, idx % outs)
    };
    fill_parallel(&mut output.data, total, 5, f);
    proof {
        assert forall|i: int, k: int| 0 <= i < rows && 0 <= k < outs implies is_mlp_cell(
            ar,
            *x,
            *weight,
            i,
            k,
            output.data@[#[trigger] slot(i, outs as int, k)],
        ) by {
            lemma_row_bounds(i, rows as int, outs as int);
            let idx = slot(i, outs as int, k);
            lemma_fundamental_div_mod_converse(idx, outs as int, i, k);
            let u = idx as usize;
            assert(output.data@[u as int] == output.data@[idx]);
        }
    }
    Ok(())
}

/// The row of `x` and the row of the weights for element `idx` of the result exist.
spec fn has_mlp_place<T>(
    x: &Tensor<T>,
    weight: &WeightTensor<T>,
    outs: usize,
    idx: usize,
) -> bool {
    &&& x.strides@.len() >= 2
    &&& weight.shape@.len() >= 2
    &&& weight.strides@.len() >= 2
    &&& outs == weight.shape@[0]
    &&& outs > 0
    &&& idx as int / weight.shape@[0] as int * x.strides@[0] + weight.shape@[1] * x.strides@[1]
        <= x.data@.len()
    &&& weight.shape@[1] * weight.strides@[1] <= usize::MAX
    &&& can_row_dot(
        weight.data,
        weight.shape@[1] * x.strides@[1],
        idx as int % weight.shape@[0] as int,
        weight.strides@[0] as int,
        weight.shape@[1] as int,
        weight.shape@[1] * weight.strides@[1],
    )
}

spec fn fills_mlp_place<T: Copy, A: Arith<T>>(
    ar: &A,
    x: &Tensor<T>,
    weight: &WeightTensor<T>,
    idx: usize,
    r: T,
) -> bool {
    let outs = weight.shape@[0] as int;
    is_mlp_cell(ar, *x, *weight, idx as int / outs, idx as int % outs, r)
}

proof fn lemma_last_row(rows: int, outs: int)
    requires
        0 < rows,
        0 < outs,
    ensures
        (rows * outs - 1) / outs == rows - 1,
{
    assert(rows * outs - 1 == (rows - 1) * outs + (outs - 1)) by (nonlinear_arith);
    lemma_fundamental_div_mod_converse(rows * outs - 1, outs, rows - 1, outs - 1);
}

} // verus!
