//! Attention: scaled scores with a causal mask, softmax, the weighted sum of values, and the
//! cache of keys and values.
use vstd::arithmetic::div_mod::lemma_fundamental_div_mod;
use vstd::arithmetic::div_mod::lemma_fundamental_div_mod_converse;
use vstd::prelude::*;

use crate::arith::{
    is_difference, is_exp, is_product, is_quotient, is_sqrt, is_sum, of_bits, of_usize, says_eq,
    says_lt, Arith, MICRO_BITS, NEG_INFINITY_BITS, ONE_BITS, ZERO_BITS,
};
use crate::norm::row_at;
use crate::rope::{
    at3, lemma_at3_nonnegative, places_differ, share_place,
};
use crate::tensor::{lemma_product_3, product, row_major, tails_fit, Tensor};

verus! {

// ---- Flat places ----

/// A place in a box of `n1 * n2` elements per layer, by its coordinates.
pub(crate) proof fn lemma_unflatten(idx: int, n0: int, n1: int, n2: int)
    requires
        0 <= idx < n0 * (n1 * n2),
        0 <= n0,
        0 <= n1,
        0 <= n2,
    ensures
        n1 > 0,
        n2 > 0,
        n1 * n2 > 0,
        0 <= idx / (n1 * n2) < n0,
        0 <= idx % (n1 * n2) / n2 < n1,
        0 <= idx % n2 < n2,
        idx == idx / (n1 * n2) * (n1 * n2) + idx % (n1 * n2) / n2 * n2 + idx % n2,
{
    let layer = n1 * n2;
    assert(n1 > 0 && n2 > 0 && layer > 0) by (nonlinear_arith)
        requires
            0 <= idx < n0 * layer,
            layer == n1 * n2,
            0 <= n0,
            0 <= n1,
            0 <= n2,
    ;
    lemma_fundamental_div_mod(idx, layer);
    let h = idx / layer;
    let rest = idx % layer;
    assert(0 <= rest < layer);
    assert(0 <= h < n0) by (nonlinear_arith)
        requires
            idx == layer * h + rest,
            0 <= rest < layer,
            0 <= idx < n0 * layer,
    ;
    lemma_fundamental_div_mod(rest, n2);
    let q = rest / n2;
    let k = rest % n2;
    assert(0 <= q < n1) by (nonlinear_arith)
        requires
            rest == n2 * q + k,
            0 <= k < n2,
            0 <= rest < n1 * n2,
    ;
    assert(idx == (n1 * h + q) * n2 + k) by (nonlinear_arith)
        requires
            idx == layer * h + rest,
            layer == n1 * n2,
            rest == n2 * q + k,
    ;
    lemma_fundamental_div_mod_converse(idx, n2, n1 * h + q, k);
    assert(layer * h == h * layer && n2 * q == q * n2) by (nonlinear_arith);
}

/// The coordinates of a place, from the place.
pub(crate) proof fn lemma_flatten(h: int, q: int, k: int, n0: int, n1: int, n2: int)
    requires
        0 <= h < n0,
        0 <= q < n1,
        0 <= k < n2,
    ensures
        ({
            let idx = h * (n1 * n2) + q * n2 + k;
            &&& 0 <= idx < n0 * (n1 * n2)
            &&& idx / (n1 * n2) == h
            &&& idx % (n1 * n2) / n2 == q
            &&& idx % n2 == k
        }),
{
    let layer = n1 * n2;
    let rest = q * n2 + k;
    let idx = h * layer + rest;
    assert(0 <= rest < layer) by (nonlinear_arith)
        requires
            rest == q * n2 + k,
            layer == n1 * n2,
            0 <= q < n1,
            0 <= k < n2,
    ;
    assert(0 <= idx < n0 * layer) by (nonlinear_arith)
        requires
            idx == h * layer + rest,
            0 <= rest < layer,
            0 <= h < n0,
    ;
    lemma_fundamental_div_mod_converse(idx, layer, h, rest);
    lemma_fundamental_div_mod_converse(rest, n2, q, k);
    assert(idx == (h * n1 + q) * n2 + k) by (nonlinear_arith)
        requires
            idx == h * layer + rest,
            layer == n1 * n2,
            rest == q * n2 + k,
    ;
    lemma_fundamental_div_mod_converse(idx, n2, h * n1 + q, k);
}

/// The strides of a row-major tensor of three dimensions.
pub(crate) proof fn lemma_strides_3(shape: Seq<usize>, strides: Seq<usize>)
    requires
        row_major(shape, strides),
        shape.len() == 3,
    ensures
        strides[2] == 1,
        strides[1] == shape[2],
        strides[0] == shape[1] * shape[2],
        product(shape) == shape[0] * (shape[1] * shape[2]),
        forall|a: int, b: int, c: int| #[trigger]
            at3(strides, a, b, c) == a * (shape[1] * shape[2]) + b * shape[2] + c,
{
    lemma_product_3(shape);
    assert(strides[0] as nat == product(shape.skip(1)));
    assert(strides[1] as nat == product(shape.skip(2)));
    assert(strides[2] as nat == product(shape.skip(3)));
    assert forall|a: int, b: int, c: int| #[trigger] at3(strides, a, b, c) == a * (shape[1]
        * shape[2]) + b * shape[2] + c by {
        assert(c * 1 == c) by (nonlinear_arith);
    }
}

// ---- Serial dot products ----

/// `r` is `p + x * y`.
pub open spec fn product_step<T: Copy, A: Arith<T>>(ar: &A, p: T, x: T, y: T, r: T) -> bool {
    exists|q: T| is_product(ar, x, y, q) && #[trigger] is_sum(ar, p, q, r)
}

/// `r` is the sum of the products of the first `n` elements, added one by one from zero.
pub open spec fn serial_dot<T: Copy, A: Arith<T>>(
    ar: &A,
    xs: Seq<T>,
    ys: Seq<T>,
    n: int,
    r: T,
) -> bool
    decreases n,
{
    if n <= 0 {
        of_bits(ar, ZERO_BITS, r)
    } else {
        exists|p: T|
            serial_dot(ar, xs, ys, n - 1, p) && #[trigger] product_step(
                ar,
                p,
                xs[n - 1],
                ys[n - 1],
                r,
            )
    }
}

fn product_add<T: Copy, A: Arith<T>>(ar: &A, p: T, x: T, y: T) -> (r: T)
    ensures
        product_step(ar, p, x, y, r),
{
    let q = ar.mul(x, y);
    let r = ar.add(p, q);
    assert(is_product(ar, x, y, q));
    assert(is_sum(ar, p, q, r));
    r
}

/// The `n` elements along the last of three coordinates.
pub open spec fn line<T>(data: Seq<T>, strides: Seq<usize>, a: int, b: int, n: int) -> Seq<T> {
    Seq::new(n as nat, |c: int| data[at3(strides, a, b, c)])
}

/// The `n` elements along the first of three coordinates.
pub open spec fn column<T>(data: Seq<T>, strides: Seq<usize>, b: int, c: int, n: int) -> Seq<T> {
    Seq::new(n as nat, |a: int| data[at3(strides, a, b, c)])
}

fn place<T>(t: &Tensor<T>, a: usize, b: usize, c: usize) -> (r: usize)
    requires
        t.strides@.len() >= 3,
        at3(t.strides@, a as int, b as int, c as int) < t.data@.len(),
    ensures
        r == at3(t.strides@, a as int, b as int, c as int),
{
    let s0 = t.strides[0];
    let s1 = t.strides[1];
    let s2 = t.strides[2];
    proof {
        assert(0 <= a * s0 && 0 <= b * s1 && 0 <= c * s2) by (nonlinear_arith);
        assert(t.data.len() == t.data@.len());
    }
    a * s0 + b * s1 + c * s2
}

// ---- Scores ----

/// The intermediate numbers of a score.
pub open spec fn score_steps<T: Copy, A: Arith<T>>(
    ar: &A,
    xs: Seq<T>,
    ys: Seq<T>,
    dot: T,
    one: T,
    dim: T,
    root: T,
    scale: T,
    r: T,
) -> bool {
    &&& serial_dot(ar, xs, ys, xs.len() as int, dot)
    &&& of_bits(ar, ONE_BITS, one)
    &&& of_usize(ar, xs.len() as usize, dim)
    &&& is_sqrt(ar, dim, root)
    &&& is_quotient(ar, one, root, scale)
    &&& is_product(ar, dot, scale, r)
}

/// `r` is the dot product of a query with a key, divided by the root of their dimension.
pub open spec fn is_score<T: Copy, A: Arith<T>>(ar: &A, xs: Seq<T>, ys: Seq<T>, r: T) -> bool {
    exists|dot: T, one: T, dim: T, root: T, scale: T|
        score_steps(ar, xs, ys, dot, one, dim, root, scale, r)
}

/// The query at `pos_q`, of `q_len` queries of which the last stands at `current_pos`, may look at
/// the key at `pos_k`.
pub open spec fn visible(pos_q: int, q_len: int, current_pos: int, pos_k: int) -> bool {
    pos_k <= pos_q + (current_pos - (q_len - 1))
}

/// `r` is the score of head `h` of the query at `pos_q` for the key at `pos_k`; a key that the
/// query may not look at scores minus infinity. `kv_group` heads share the keys of one head.
pub open spec fn is_masked_score<T: Copy, A: Arith<T>>(
    ar: &A,
    q: Tensor<T>,
    k: Tensor<T>,
    kv_group: int,
    current_pos: int,
    h: int,
    pos_q: int,
    pos_k: int,
    r: T,
) -> bool {
    if visible(pos_q, q.shape@[0] as int, current_pos, pos_k) {
        is_score(
            ar,
            line(q.data@, q.strides@, pos_q, h, q.shape@[2] as int),
            line(k.data@, k.strides@, pos_k, h / kv_group, q.shape@[2] as int),
            r,
        )
    } else {
        of_bits(ar, NEG_INFINITY_BITS, r)
    }
}

/// There is at least one score to compute.
pub open spec fn has_scores<T>(q: Tensor<T>, valid_kv_len: usize) -> bool {
    q.shape@[1] > 0 && q.shape@[0] > 0 && valid_kv_len > 0
}

/// What the scores need: dimensions that fit, a mask that reaches back to the first query, room
/// for the scores, and queries and keys of every head.
pub open spec fn can_score<T>(
    q: Tensor<T>,
    k: Tensor<T>,
    kv_group: usize,
    valid_kv_len: usize,
    current_pos: usize,
    s: Tensor<T>,
) -> bool {
    &&& q.shape@.len() >= 2
    &&& tails_fit(seq![q.shape@[1], q.shape@[0], valid_kv_len])
    &&& has_scores(q, valid_kv_len) ==> {
        &&& q.shape@.len() >= 3
        &&& k.shape@.len() >= 3
        &&& kv_group > 0
        &&& q.shape@[0] <= current_pos + 1
        &&& s.data@.len() > 0
        &&& q.shape@[2] == k.shape@[2] ==> {
            &&& q.strides@.len() >= 3
            &&& k.strides@.len() >= 3
            &&& product(seq![q.shape@[1], q.shape@[0], valid_kv_len]) <= s.data@.len()
            &&& forall|a: int, b: int, c: int|
                0 <= a < q.shape@[0] && 0 <= b < q.shape@[1] && 0 <= c < q.shape@[2]
                    ==> #[trigger] at3(q.strides@, a, b, c) < q.data@.len()
            &&& forall|a: int, b: int, c: int|
                0 <= a < valid_kv_len && a <= current_pos && 0 <= b <= (q.shape@[1] - 1)
                    / kv_group as int && 0 <= c < k.shape@[2] ==> #[trigger] at3(
                    k.strides@,
                    a,
                    b,
                    c,
                ) < k.data@.len()
        }
    }
}

fn score<T: Copy, A: Arith<T>>(
    ar: &A,
    q: &Tensor<T>,
    k: &Tensor<T>,
    h: usize,
    k_h: usize,
    pos_q: usize,
    pos_k: usize,
    dim: usize,
) -> (r: T)
    requires
        q.strides@.len() >= 3,
        k.strides@.len() >= 3,
        forall|c: int|
            0 <= c < dim ==> #[trigger] at3(q.strides@, pos_q as int, h as int, c)
                < q.data@.len(),
        forall|c: int|
            0 <= c < dim ==> #[trigger] at3(k.strides@, pos_k as int, k_h as int, c)
                < k.data@.len(),
    ensures
        is_score(
            ar,
            line(q.data@, q.strides@, pos_q as int, h as int, dim as int),
            line(k.data@, k.strides@, pos_k as int, k_h as int, dim as int),
            r,
        ),
{
    let ghost xs = line(q.data@, q.strides@, pos_q as int, h as int, dim as int);
    let ghost ys = line(k.data@, k.strides@, pos_k as int, k_h as int, dim as int);
    let mut sum = ar.from_bits(ZERO_BITS);
    let mut d: usize = 0;
    while d < dim
        invariant
            d <= dim,
            q.strides@.len() >= 3,
            k.strides@.len() >= 3,
            forall|c: int|
                0 <= c < dim ==> #[trigger] at3(q.strides@, pos_q as int, h as int, c)
                    < q.data@.len(),
            forall|c: int|
                0 <= c < dim ==> #[trigger] at3(k.strides@, pos_k as int, k_h as int, c)
                    < k.data@.len(),
            xs == line(q.data@, q.strides@, pos_q as int, h as int, dim as int),
            ys == line(k.data@, k.strides@, pos_k as int, k_h as int, dim as int),
            serial_dot(ar, xs, ys, d as int, sum),
        decreases dim - d,
    {
        let i = place(q, pos_q, h, d);
        let j = place(k, pos_k, k_h, d);
        proof {
            lemma_at3_nonnegative(q.strides@, pos_q as int, h as int, d as int);
            lemma_at3_nonnegative(k.strides@, pos_k as int, k_h as int, d as int);
        }
        let next = product_add(ar, sum, q.data[i], k.data[j]);
        proof {
            let n = d + 1;
            assert(product_step(ar, sum, xs[n - 1], ys[n - 1], next));
            assert(serial_dot(ar, xs, ys, n, next));
        }
        sum = next;
        d += 1;
    }
    let one = ar.from_bits(ONE_BITS);
    let n = ar.from_usize(dim);
    let root = ar.sqrt(n);
    let scale = ar.div(one, root);
    let r = ar.mul(sum, scale);
    assert(score_steps(ar, xs, ys, sum, one, n, root, scale, r));
    r
}

/// `after` holds the scores of all heads and queries for the first `valid_kv_len` keys, and behind
/// them what `before` holds.
pub open spec fn are_scores<T: Copy, A: Arith<T>>(
    ar: &A,
    q: Tensor<T>,
    k: Tensor<T>,
    kv_group: usize,
    valid_kv_len: usize,
    current_pos: usize,
    before: Tensor<T>,
    after: Tensor<T>,
) -> bool {
    &&& after.wf()
    &&& after.shape@ == seq![q.shape@[1], q.shape@[0], valid_kv_len]
    &&& after.data@.len() == before.data@.len()
    &&& forall|h: int, pos_q: int, pos_k: int|
        0 <= h < q.shape@[1] && 0 <= pos_q < q.shape@[0] && 0 <= pos_k < valid_kv_len
            ==> is_masked_score(
            ar,
            q,
            k,
            kv_group as int,
            current_pos as int,
            h,
            pos_q,
            pos_k,
            after.data@[#[trigger] at3(after.strides@, h, pos_q, pos_k)],
        )
    &&& forall|p: int|
        product(after.shape@) <= p < before.data@.len() ==> #[trigger] after.data@[p]
            == before.data@[p]
}

/// Computes the scores of all heads and queries for the first `valid_kv_len` keys into `s`, with
/// the causal mask. Queries and keys of different dimensions are an error.
pub fn attention_score<T: Copy, A: Arith<T>>(
    ar: &A,
    q: &Tensor<T>,
    k: &Tensor<T>,
    kv_group: usize,
    valid_kv_len: usize,
    current_pos: usize,
    s: &mut Tensor<T>,
) -> (r: Result<(), String>)
    requires
        can_score(*q, *k, kv_group, valid_kv_len, current_pos, *old(s)),
    ensures
        r is Err <==> has_scores(*q, valid_kv_len) && q.shape@[2] != k.shape@[2],
        final(s).wf(),
        final(s).shape@ == seq![q.shape@[1], q.shape@[0], valid_kv_len],
        final(s).data@.len() == old(s).data@.len(),
        r matches Err(e) ==> {
            &&& e@ == "q and k hidden_dim not the same"@
            &&& of_bits(ar, ZERO_BITS, final(s).data@[0])
            &&& final(s).data@ == old(s).data@.update(0, final(s).data@[0])
        },
        r is Ok ==> are_scores(
            ar,
            *q,
            *k,
            kv_group,
            valid_kv_len,
            current_pos,
            *old(s),
            *final(s),
        ),
{
    let n0 = q.shape[1];
    let n1 = q.shape[0];
    let n2 = valid_kv_len;
    let shape: Vec<usize> = vec![n0, n1, n2];
    assert(shape@ =~= seq![q.shape@[1], q.shape@[0], valid_kv_len]);
    s.update_shape(shape);
    proof {
        lemma_strides_3(s.shape@, s.strides@);
        assert(product(s.shape@.skip(0)) <= usize::MAX);
        assert(s.shape@.skip(0) =~= s.shape@);
        assert(product(s.shape@.skip(1)) <= usize::MAX);
        lemma_product_3(s.shape@);
        if n0 == 0 || n1 == 0 || n2 == 0 {
            assert(n0 * (n1 * n2) == 0) by (nonlinear_arith)
                requires
                    n0 == 0 || n1 == 0 || n2 == 0,
            ;
        }
    }
    if n0 == 0 || n1 == 0 || n2 == 0 {
        return Ok(());
    }
    let dim = q.shape[2];
    if dim != k.shape[2] {
        let z = ar.from_bits(ZERO_BITS);
        s.data[0] = z;
        return Err("q and k hidden_dim not the same".to_owned());
    }
    let layer = n1 * n2;
    let total = n0 * layer;
    let ghost data0 = s.data@;
    let ghost shape0 = s.shape@;
    let ghost strides0 = s.strides@;
    let mut idx: usize = 0;
    while idx < total
        invariant
            idx <= total,
            total == n0 * (n1 * n2),
            layer == n1 * n2,
            n0 > 0,
            n1 > 0,
            n2 > 0,
            n0 == q.shape@[1],
            n1 == q.shape@[0],
            n2 == valid_kv_len,
            dim == q.shape@[2],
            dim == k.shape@[2],
            can_score(*q, *k, kv_group, valid_kv_len, current_pos, *old(s)),
            has_scores(*q, valid_kv_len),
            s.shape@ == shape0,
            s.strides@ == strides0,
            s.data@.len() == data0.len(),
            total <= data0.len(),
            forall|i: int|
                0 <= i < idx ==> is_masked_score(
                    ar,
                    *q,
                    *k,
                    kv_group as int,
                    current_pos as int,
                    i / (n1 * n2),
                    i % (n1 * n2) / (n2 as int),
                    i % (n2 as int),
                    #[trigger] s.data@[i],
                ),
            forall|i: int| idx <= i < data0.len() ==> #[trigger] s.data@[i] == data0[i],
        decreases total - idx,
    {
        proof {
            lemma_unflatten(idx as int, n0 as int, n1 as int, n2 as int);
        }
        let h = idx / layer;
        let pos_q = idx % layer / n2;
        let pos_k = idx % n2;
        let abs_pos_q = pos_q + (current_pos - (n1 - 1));
        let value = if abs_pos_q >= pos_k {
            let k_h = h / kv_group;
            proof {
                assert(k_h as int <= (n0 - 1) / (kv_group as int)) by {
                    vstd::arithmetic::div_mod::lemma_div_is_ordered(
                        h as int,
                        n0 - 1,
                        kv_group as int,
                    );
                }
            }
            score(ar, q, k, h, k_h, pos_q, pos_k, dim)
        } else {
            ar.from_bits(NEG_INFINITY_BITS)
        };
        s.data[idx] = value;
        idx += 1;
    }
    proof {
        assert forall|h: int, pos_q: int, pos_k: int|
            0 <= h < q.shape@[1] && 0 <= pos_q < q.shape@[0] && 0 <= pos_k
                < valid_kv_len implies is_masked_score(
            ar,
            *q,
            *k,
            kv_group as int,
            current_pos as int,
            h,
            pos_q,
            pos_k,
            s.data@[#[trigger] at3(s.strides@, h, pos_q, pos_k)],
        ) by {
            lemma_flatten(h, pos_q, pos_k, n0 as int, n1 as int, n2 as int);
        }
    }
    Ok(())
}

// ---- Softmax ----

/// `r` is the larger of the maximum so far and the next element; minus infinity never counts.
pub open spec fn max_step<T: Copy, A: Arith<T>>(ar: &A, m: T, x: T, r: T) -> bool {
    ||| says_lt(ar, m, x, false) && r == m
    ||| says_lt(ar, m, x, true) && exists|low: T, same: bool|
        of_bits(ar, NEG_INFINITY_BITS, low) && #[trigger] says_eq(ar, x, low, same) && r == (
        if same {
            m
        } else {
            x
        })
}

/// `r` is the maximum of the first `n` elements, from minus infinity.
pub open spec fn is_max_of<T: Copy, A: Arith<T>>(ar: &A, xs: Seq<T>, n: int, r: T) -> bool
    decreases n,
{
    if n <= 0 {
        of_bits(ar, NEG_INFINITY_BITS, r)
    } else {
        exists|p: T| is_max_of(ar, xs, n - 1, p) && #[trigger] max_step(ar, p, xs[n - 1], r)
    }
}

/// `e` is the exponential of `x - m`, and `r` is `p + e`; minus infinity gives zero and leaves the
/// sum as it is.
pub open spec fn exp_step<T: Copy, A: Arith<T>>(ar: &A, m: T, p: T, x: T, e: T, r: T) -> bool {
    exists|low: T, same: bool|
        of_bits(ar, NEG_INFINITY_BITS, low) && #[trigger] says_eq(ar, x, low, same) && if same {
            of_bits(ar, ZERO_BITS, e) && r == p
        } else {
            exists|gap: T|
                is_difference(ar, x, m, gap) && #[trigger] is_exp(ar, gap, e) && is_sum(ar, p, e, r)
        }
}

/// `r` is the sum of the exponentials `es` of the first `n` elements.
pub open spec fn is_exp_sum<T: Copy, A: Arith<T>>(
    ar: &A,
    m: T,
    xs: Seq<T>,
    es: Seq<T>,
    n: int,
    r: T,
) -> bool
    decreases n,
{
    if n <= 0 {
        of_bits(ar, ZERO_BITS, r)
    } else {
        exists|p: T|
            is_exp_sum(ar, m, xs, es, n - 1, p) && #[trigger] exp_step(
                ar,
                m,
                p,
                xs[n - 1],
                es[n - 1],
                r,
            )
    }
}

/// `r` is `e / (sum + 0.000001)`, or `e` where it is not above minus infinity.
pub open spec fn is_share<T: Copy, A: Arith<T>>(ar: &A, sum: T, e: T, r: T) -> bool {
    exists|low: T, above: bool|
        of_bits(ar, NEG_INFINITY_BITS, low) && #[trigger] says_lt(ar, low, e, above) && if above {
            exists|tiny: T, below: T|
                of_bits(ar, MICRO_BITS, tiny) && #[trigger] is_sum(ar, sum, tiny, below)
                    && is_quotient(ar, e, below, r)
        } else {
            r == e
        }
}

/// The maximum, the exponentials and their sum from which the shares come.
pub open spec fn softmax_steps<T: Copy, A: Arith<T>>(
    ar: &A,
    xs: Seq<T>,
    m: T,
    es: Seq<T>,
    sum: T,
    ys: Seq<T>,
) -> bool {
    &&& ys.len() == xs.len()
    &&& es.len() == xs.len()
    &&& is_max_of(ar, xs, xs.len() as int, m)
    &&& is_exp_sum(ar, m, xs, es, xs.len() as int, sum)
    &&& forall|i: int| 0 <= i < xs.len() ==> is_share(ar, sum, es[i], #[trigger] ys[i])
}

/// `ys` is the softmax of `xs`.
pub open spec fn is_softmax<T: Copy, A: Arith<T>>(ar: &A, xs: Seq<T>, ys: Seq<T>) -> bool {
    exists|m: T, es: Seq<T>, sum: T| softmax_steps(ar, xs, m, es, sum, ys)
}

fn softmax_of<T: Copy, A: Arith<T>>(ar: &A, xs: &Vec<T>) -> (ys: Vec<T>)
    ensures
        is_softmax(ar, xs@, ys@),
{
    let mut m = ar.from_bits(NEG_INFINITY_BITS);
    let mut i: usize = 0;
    while i < xs.len()
        invariant
            i <= xs.len(),
            is_max_of(ar, xs@, i as int, m),
        decreases xs.len() - i,
    {
        let x = xs[i];
        let above = ar.lt(m, x);
        assert(says_lt(ar, m, x, above));
        let mut next = m;
        if above {
            let low = ar.from_bits(NEG_INFINITY_BITS);
            let same = ar.eq(x, low);
            assert(says_eq(ar, x, low, same));
            if !same {
                next = x;
            }
        }
        proof {
            let n = i + 1;
            assert(max_step(ar, m, xs@[n - 1], next));
            assert(is_max_of(ar, xs@, n, next));
        }
        m = next;
        i += 1;
    }
    let mut es: Vec<T> = Vec::new();
    let mut sum = ar.from_bits(ZERO_BITS);
    i = 0;
    while i < xs.len()
        invariant
            i <= xs.len(),
            es@.len() == i,
            is_exp_sum(ar, m, xs@, es@, i as int, sum),
        decreases xs.len() - i,
    {
        let x = xs[i];
        let low = ar.from_bits(NEG_INFINITY_BITS);
        let same = ar.eq(x, low);
        assert(says_eq(ar, x, low, same));
        let ghost before = es@;
        let ghost p = sum;
        if same {
            let e = ar.from_bits(ZERO_BITS);
            es.push(e);
        } else {
            let gap = ar.sub(x, m);
            let e = ar.exp(gap);
            let next = ar.add(sum, e);
            assert(is_difference(ar, x, m, gap));
            assert(is_exp(ar, gap, e));
            es.push(e);
            sum = next;
        }
        proof {
            let n = i + 1;
            lemma_exp_sum_prefix(ar, m, xs@, before, es@, i as int, p);
            assert(exp_step(ar, m, p, xs@[n - 1], es@[n - 1], sum));
            assert(is_exp_sum(ar, m, xs@, es@, n, sum));
        }
        i += 1;
    }
    let mut ys: Vec<T> = Vec::new();
    i = 0;
    while i < xs.len()
        invariant
            i <= xs.len(),
            es@.len() == xs@.len(),
            ys@.len() == i,
            forall|j: int| 0 <= j < i ==> is_share(ar, sum, es@[j], #[trigger] ys@[j]),
        decreases xs.len() - i,
    {
        let e = es[i];
        let low = ar.from_bits(NEG_INFINITY_BITS);
        let above = ar.lt(low, e);
        assert(says_lt(ar, low, e, above));
        if above {
            let tiny = ar.from_bits(MICRO_BITS);
            let below = ar.add(sum, tiny);
            let y = ar.div(e, below);
            assert(is_sum(ar, sum, tiny, below));
            assert(is_share(ar, sum, e, y));
            ys.push(y);
        } else {
            assert(is_share(ar, sum, e, e));
            ys.push(e);
        }
        i += 1;
    }
    assert(softmax_steps(ar, xs@, m, es@, sum, ys@));
    ys
}

proof fn lemma_exp_sum_prefix<T: Copy, A: Arith<T>>(
    ar: &A,
    m: T,
    xs: Seq<T>,
    es: Seq<T>,
    fs: Seq<T>,
    n: int,
    r: T,
)
    requires
        is_exp_sum(ar, m, xs, es, n, r),
        n <= es.len() <= fs.len(),
        forall|i: int| 0 <= i < n ==> es[i] == fs[i],
    ensures
        is_exp_sum(ar, m, xs, fs, n, r),
    decreases n,
{
    if n > 0 {
        let p = choose|p: T|
            is_exp_sum(ar, m, xs, es, n - 1, p) && #[trigger] exp_step(
                ar,
                m,
                p,
                xs[n - 1],
                es[n - 1],
                r,
            );
        lemma_exp_sum_prefix(ar, m, xs, es, fs, n - 1, p);
        assert(exp_step(ar, m, p, xs[n - 1], fs[n - 1], r));
    }
}

/// Every element that the softmax touches lies in the tensor, each at a place of its own.
pub open spec fn can_softmax<T>(t: Tensor<T>) -> bool {
    let shape = t.shape@;
    &&& shape.len() >= 3
    &&& t.strides@.len() >= 3
    &&& forall|a: int, b: int, c: int|
        0 <= a < shape[0] && 0 <= b < shape[1] && 0 <= c < shape[2] ==> #[trigger] at3(
            t.strides@,
            a,
            b,
            c,
        ) < t.data@.len()
    &&& places_differ(t.strides@, shape[0] as int, shape[1] as int, shape[2] as int)
}

/// The order in which the rows are done.
spec fn row_before(a: int, b: int, h: int, q: int) -> bool {
    a < h || (a == h && b < q)
}

/// `p` belongs to none of the rows before `(h, q)`.
spec fn row_apart(shape: Seq<usize>, strides: Seq<usize>, p: int, h: int, q: int) -> bool {
    forall|a: int, b: int, c: int|
        #![trigger row_before(a, b, h, q), at3(strides, a, b, c)]
        0 <= a && 0 <= b < shape[1] && 0 <= c < shape[2] && row_before(a, b, h, q) ==> p != at3(
            strides,
            a,
            b,
            c,
        )
}

/// The rows before `(h, q)` hold their softmax, and nothing else is changed.
spec fn soft_until<T: Copy, A: Arith<T>>(
    ar: &A,
    shape: Seq<usize>,
    strides: Seq<usize>,
    before: Seq<T>,
    after: Seq<T>,
    h: int,
    q: int,
) -> bool {
    &&& after.len() == before.len()
    &&& forall|a: int, b: int|
        0 <= a && 0 <= b < shape[1] && #[trigger] row_before(a, b, h, q) ==> is_softmax(
            ar,
            line(before, strides, a, b, shape[2] as int),
            line(after, strides, a, b, shape[2] as int),
        )
    &&& forall|p: int|
        0 <= p < before.len() && row_apart(shape, strides, p, h, q) ==> #[trigger] after[p]
            == before[p]
}

proof fn lemma_soft_same<T: Copy, A: Arith<T>>(
    ar: &A,
    shape: Seq<usize>,
    strides: Seq<usize>,
    before: Seq<T>,
    after: Seq<T>,
    from: (int, int),
    to: (int, int),
)
    requires
        soft_until(ar, shape, strides, before, after, from.0, from.1),
        forall|a: int, b: int|
            0 <= a && 0 <= b < shape[1] ==> (row_before(a, b, from.0, from.1)
                <==> #[trigger] row_before(a, b, to.0, to.1)),
    ensures
        soft_until(ar, shape, strides, before, after, to.0, to.1),
{
    assert forall|p: int|
        0 <= p < before.len() && row_apart(shape, strides, p, to.0, to.1) implies #[trigger] after[p]
        == before[p] by {
        assert forall|a: int, b: int, c: int|
            #![trigger row_before(a, b, from.0, from.1), at3(strides, a, b, c)]
            0 <= a && 0 <= b < shape[1] && 0 <= c < shape[2] && row_before(
                a,
                b,
                from.0,
                from.1,
            ) implies p != at3(strides, a, b, c) by {
            assert(row_before(a, b, to.0, to.1));
        }
        assert(row_apart(shape, strides, p, from.0, from.1));
    }
    assert forall|a: int, b: int|
        0 <= a && 0 <= b < shape[1] && #[trigger] row_before(a, b, to.0, to.1) implies is_softmax(
        ar,
        line(before, strides, a, b, shape[2] as int),
        line(after, strides, a, b, shape[2] as int),
    ) by {
        assert(row_before(a, b, from.0, from.1));
    }
}

fn softmax_row<T: Copy, A: Arith<T>>(ar: &A, t: &mut Tensor<T>, h: usize, q: usize)
    requires
        can_softmax(*old(t)),
        h < old(t).shape@[0],
        q < old(t).shape@[1],
    ensures
        final(t).shape@ == old(t).shape@,
        final(t).strides@ == old(t).strides@,
        final(t).data@.len() == old(t).data@.len(),
        is_softmax(
            ar,
            line(
                old(t).data@,
                old(t).strides@,
                h as int,
                q as int,
                old(t).shape@[2] as int,
            ),
            line(
                final(t).data@,
                old(t).strides@,
                h as int,
                q as int,
                old(t).shape@[2] as int,
            ),
        ),
        forall|p: int|
            0 <= p < old(t).data@.len() && (forall|c: int|
                0 <= c < old(t).shape@[2] ==> p != #[trigger] at3(
                    old(t).strides@,
                    h as int,
                    q as int,
                    c,
                )) ==> #[trigger] final(t).data@[p] == old(t).data@[p],
{
    let n = t.shape[2];
    let ghost strides = t.strides@;
    let ghost shape = t.shape@;
    let ghost data0 = t.data@;
    let ghost xs0 = line(data0, strides, h as int, q as int, n as int);
    let mut xs: Vec<T> = Vec::new();
    let mut i: usize = 0;
    while i < n
        invariant
            i <= n,
            n == shape[2],
            h < shape[0],
            q < shape[1],
            t.shape@ == shape,
            t.strides@ == strides,
            t.data@ == data0,
            strides.len() >= 3,
            can_softmax(*t),
            xs0 == line(data0, strides, h as int, q as int, n as int),
            xs@ == xs0.take(i as int),
        decreases n - i,
    {
        let at = place(t, h, q, i);
        proof {
            lemma_at3_nonnegative(strides, h as int, q as int, i as int);
        }
        xs.push(t.data[at]);
        assert(xs@ =~= xs0.take(i + 1));
        i += 1;
    }
    assert(xs0.take(n as int) =~= xs0);
    let ys = softmax_of(ar, &xs);
    i = 0;
    while i < n
        invariant
            i <= n,
            n == shape[2],
            h < shape[0],
            q < shape[1],
            t.shape@ == shape,
            t.strides@ == strides,
            t.data@.len() == data0.len(),
            ys@.len() == n,
            can_softmax(*t),
            forall|c: int|
                0 <= c < i ==> t.data@[#[trigger] at3(strides, h as int, q as int, c)] == ys@[c],
            forall|p: int|
                0 <= p < data0.len() && (forall|c: int|
                    0 <= c < n ==> p != #[trigger] at3(strides, h as int, q as int, c))
                    ==> #[trigger] t.data@[p] == data0[p],
        decreases n - i,
    {
        let at = place(t, h, q, i);
        let ghost middle = t.data@;
        proof {
            lemma_at3_nonnegative(strides, h as int, q as int, i as int);
        }
        t.data[at] = ys[i];
        proof {
            assert forall|c: int| 0 <= c < i + 1 implies t.data@[#[trigger] at3(
                strides,
                h as int,
                q as int,
                c,
            )] == ys@[c] by {
                if c < i {
                    assert(!share_place(
                        strides,
                        h as int,
                        q as int,
                        c,
                        h as int,
                        q as int,
                        i as int,
                    ));
                    lemma_at3_nonnegative(strides, h as int, q as int, c);
                }
            }
        }
        i += 1;
    }
    assert(line(t.data@, strides, h as int, q as int, n as int) =~= ys@);
}

/// `after` is `before` with each row along the last dimension replaced by its shares.
pub open spec fn is_softmax_of<T: Copy, A: Arith<T>>(
    ar: &A,
    before: Tensor<T>,
    after: Tensor<T>,
) -> bool {
    &&& after.shape@ == before.shape@
    &&& after.strides@ == before.strides@
    &&& after.data@.len() == before.data@.len()
    &&& {
        let shape = before.shape@;
        let strides = before.strides@;
        &&& forall|h: int, pos_q: int|
            0 <= h < shape[0] && 0 <= pos_q < shape[1] ==> is_softmax(
                ar,
                line(before.data@, strides, h, pos_q, shape[2] as int),
                #[trigger] line(after.data@, strides, h, pos_q, shape[2] as int),
            )
        &&& forall|p: int|
            0 <= p < before.data@.len() && (forall|a: int, b: int, c: int|
                0 <= a < shape[0] && 0 <= b < shape[1] && 0 <= c < shape[2] ==> p
                    != #[trigger] at3(strides, a, b, c)) ==> #[trigger] after.data@[p]
                == before.data@[p]
    }
}

/// Replaces every row along the last of three coordinates by its softmax. Minus infinity gives
/// zero.
pub fn softmax<T: Copy, A: Arith<T>>(ar: &A, t: &mut Tensor<T>)
    requires
        can_softmax(*old(t)),
    ensures
        is_softmax_of(ar, *old(t), *final(t)),
{
    let n0 = t.shape[0];
    let n1 = t.shape[1];
    let ghost shape = t.shape@;
    let ghost strides = t.strides@;
    let ghost before = t.data@;
    let mut h: usize = 0;
    while h < n0
        invariant
            h <= n0,
            n0 == shape[0],
            n1 == shape[1],
            t.shape@ == shape,
            t.strides@ == strides,
            can_softmax(*t),
            soft_until(ar, shape, strides, before, t.data@, h as int, 0),
        decreases n0 - h,
    {
        let mut q: usize = 0;
        while q < n1
            invariant
                h < n0,
                q <= n1,
                n0 == shape[0],
                n1 == shape[1],
                t.shape@ == shape,
                t.strides@ == strides,
                can_softmax(*t),
                soft_until(ar, shape, strides, before, t.data@, h as int, q as int),
            decreases n1 - q,
        {
            let ghost middle = t.data@;
            softmax_row(ar, t, h, q);
            proof {
                lemma_soft_step(ar, shape, strides, before, middle, t.data@, h as int, q as int);
            }
            q += 1;
        }
        proof {
            lemma_soft_same(
                ar,
                shape,
                strides,
                before,
                t.data@,
                (h as int, n1 as int),
                (h + 1, 0),
            );
        }
        h += 1;
    }
    proof {
        assert forall|a: int, b: int| 0 <= a < shape[0] && 0 <= b < shape[1] implies is_softmax(
            ar,
            line(before, strides, a, b, shape[2] as int),
            #[trigger] line(t.data@, strides, a, b, shape[2] as int),
        ) by {
            assert(row_before(a, b, n0 as int, 0));
        }
        assert forall|p: int|
            0 <= p < before.len() && (forall|a: int, b: int, c: int|
                0 <= a < shape[0] && 0 <= b < shape[1] && 0 <= c < shape[2] ==> p
                    != #[trigger] at3(strides, a, b, c)) implies #[trigger] t.data@[p]
            == before[p] by {
            assert(row_apart(shape, strides, p, n0 as int, 0));
        }
    }
}

proof fn lemma_soft_step<T: Copy, A: Arith<T>>(
    ar: &A,
    shape: Seq<usize>,
    strides: Seq<usize>,
    before: Seq<T>,
    middle: Seq<T>,
    after: Seq<T>,
    h: int,
    q: int,
)
    requires
        strides.len() >= 3,
        places_differ(strides, shape[0] as int, shape[1] as int, shape[2] as int),
        0 <= h < shape[0],
        0 <= q < shape[1],
        soft_until(ar, shape, strides, before, middle, h, q),
        after.len() == middle.len(),
        forall|a: int, b: int, c: int|
            0 <= a < shape[0] && 0 <= b < shape[1] && 0 <= c < shape[2] ==> #[trigger] at3(
                strides,
                a,
                b,
                c,
            ) < before.len(),
        is_softmax(
            ar,
            line(middle, strides, h, q, shape[2] as int),
            line(after, strides, h, q, shape[2] as int),
        ),
        forall|p: int|
            0 <= p < middle.len() && (forall|c: int|
                0 <= c < shape[2] ==> p != #[trigger] at3(strides, h, q, c))
                ==> #[trigger] after[p] == middle[p],
    ensures
        soft_until(ar, shape, strides, before, after, h, q + 1),
{
    let n1 = shape[1] as int;
    let n2 = shape[2] as int;
    assert(line(middle, strides, h, q, n2) =~= line(before, strides, h, q, n2)) by {
        assert forall|c: int| 0 <= c < n2 implies middle[#[trigger] at3(strides, h, q, c)]
            == before[at3(strides, h, q, c)] by {
            let p = at3(strides, h, q, c);
            lemma_at3_nonnegative(strides, h, q, c);
            assert forall|a: int, b: int, d: int|
                #![trigger row_before(a, b, h, q), at3(strides, a, b, d)]
                0 <= a && 0 <= b < n1 && 0 <= d < n2 && row_before(a, b, h, q) implies p != at3(
                strides,
                a,
                b,
                d,
            ) by {
                assert(!share_place(strides, a, b, d, h, q, c));
            }
            assert(row_apart(shape, strides, p, h, q));
        }
    }
    assert forall|a: int, b: int|
        0 <= a && 0 <= b < n1 && #[trigger] row_before(a, b, h, q + 1) implies is_softmax(
        ar,
        line(before, strides, a, b, n2),
        line(after, strides, a, b, n2),
    ) by {
        if row_before(a, b, h, q) {
            assert(line(after, strides, a, b, n2) =~= line(middle, strides, a, b, n2)) by {
                assert forall|d: int| 0 <= d < n2 implies after[#[trigger] at3(strides, a, b, d)]
                    == middle[at3(strides, a, b, d)] by {
                    lemma_at3_nonnegative(strides, a, b, d);
                    assert(a < shape[0]);
                    assert forall|c: int| 0 <= c < n2 implies at3(strides, a, b, d)
                        != #[trigger] at3(strides, h, q, c) by {
                        assert(!share_place(strides, a, b, d, h, q, c));
                    }
                }
            }
        } else {
            assert(a == h && b == q);
        }
    }
    assert forall|p: int|
        0 <= p < before.len() && row_apart(shape, strides, p, h, q + 1) implies #[trigger] after[p]
        == before[p] by {
        assert(row_before(h, q, h, q + 1));
        assert forall|c: int| 0 <= c < n2 implies p != #[trigger] at3(strides, h, q, c) by {}
        assert forall|a: int, b: int, d: int|
            #![trigger row_before(a, b, h, q), at3(strides, a, b, d)]
            0 <= a && 0 <= b < n1 && 0 <= d < n2 && row_before(a, b, h, q) implies p != at3(
            strides,
            a,
            b,
            d,
        ) by {
            assert(row_before(a, b, h, q + 1));
        }
        assert(row_apart(shape, strides, p, h, q));
    }
}

// ---- The weighted sum of values ----

/// `r` is element `d` of what head `h` of the query at `pos_q` attends to: the sum over all keys
/// of their shares times their values. `kv_group` heads share the values of one head.
pub open spec fn is_attended<T: Copy, A: Arith<T>>(
    ar: &A,
    s: Tensor<T>,
    v: Tensor<T>,
    kv_group: int,
    pos_q: int,
    h: int,
    d: int,
    r: T,
) -> bool {
    let n = s.shape@[2] as int;
    serial_dot(
        ar,
        line(s.data@, s.strides@, h, pos_q, n),
        column(v.data@, v.strides@, h / kv_group, d, n),
        n,
        r,
    )
}

/// What the weighted sum needs: dimensions that fit, room for the result, and shares and values
/// for every head.
pub open spec fn can_attend<T>(s: Tensor<T>, v: Tensor<T>, kv_group: usize, attn: Tensor<T>) -> bool {
    &&& s.shape@.len() >= 2
    &&& v.shape@.len() >= 3
    &&& tails_fit(seq![s.shape@[1], s.shape@[0], v.shape@[2]])
    &&& product(seq![s.shape@[1], s.shape@[0], v.shape@[2]]) <= attn.data@.len()
    &&& product(seq![s.shape@[1], s.shape@[0], v.shape@[2]]) > 0 ==> {
        &&& s.shape@.len() >= 3
        &&& s.shape@[2] > 0 ==> {
            &&& kv_group > 0
            &&& s.strides@.len() >= 3
            &&& v.strides@.len() >= 3
            &&& forall|a: int, b: int, c: int|
                0 <= a < s.shape@[0] && 0 <= b < s.shape@[1] && 0 <= c < s.shape@[2]
                    ==> #[trigger] at3(s.strides@, a, b, c) < s.data@.len()
            &&& forall|a: int, b: int, c: int|
                0 <= a < s.shape@[2] && 0 <= b <= (s.shape@[0] - 1) / kv_group as int && 0 <= c
                    < v.shape@[2] ==> #[trigger] at3(v.strides@, a, b, c) < v.data@.len()
        }
    }
}

fn attended<T: Copy, A: Arith<T>>(
    ar: &A,
    s: &Tensor<T>,
    v: &Tensor<T>,
    kv_group: usize,
    pos_q: usize,
    h: usize,
    d: usize,
) -> (r: T)
    requires
        s.shape@.len() >= 3,
        s.shape@[2] > 0 ==> {
            &&& kv_group > 0
            &&& s.strides@.len() >= 3
            &&& v.strides@.len() >= 3
            &&& forall|c: int|
                0 <= c < s.shape@[2] ==> #[trigger] at3(s.strides@, h as int, pos_q as int, c)
                    < s.data@.len()
            &&& forall|c: int|
                0 <= c < s.shape@[2] ==> #[trigger] at3(
                    v.strides@,
                    c,
                    h as int / kv_group as int,
                    d as int,
                ) < v.data@.len()
        },
    ensures
        is_attended(ar, *s, *v, kv_group as int, pos_q as int, h as int, d as int, r),
{
    let n = s.shape[2];
    let ghost group = h as int / kv_group as int;
    let ghost xs = line(s.data@, s.strides@, h as int, pos_q as int, n as int);
    let ghost ys = column(v.data@, v.strides@, group, d as int, n as int);
    let mut sum = ar.from_bits(ZERO_BITS);
    let mut pos_k: usize = 0;
    while pos_k < n
        invariant
            pos_k <= n,
            n == s.shape@[2],
            group == h as int / kv_group as int,
            n > 0 ==> {
                &&& kv_group > 0
                &&& s.strides@.len() >= 3
                &&& v.strides@.len() >= 3
                &&& forall|c: int|
                    0 <= c < n ==> #[trigger] at3(s.strides@, h as int, pos_q as int, c)
                        < s.data@.len()
                &&& forall|c: int|
                    0 <= c < n ==> #[trigger] at3(v.strides@, c, group, d as int) < v.data@.len()
            },
            xs == line(s.data@, s.strides@, h as int, pos_q as int, n as int),
            ys == column(v.data@, v.strides@, group, d as int, n as int),
            serial_dot(ar, xs, ys, pos_k as int, sum),
        decreases n - pos_k,
    {
        let g = h / kv_group;
        let i = place(s, h, pos_q, pos_k);
        let j = place(v, pos_k, g, d);
        proof {
            lemma_at3_nonnegative(s.strides@, h as int, pos_q as int, pos_k as int);
            lemma_at3_nonnegative(v.strides@, pos_k as int, g as int, d as int);
        }
        let next = product_add(ar, sum, s.data[i], v.data[j]);
        proof {
            let m = pos_k + 1;
            assert(product_step(ar, sum, xs[m - 1], ys[m - 1], next));
            assert(serial_dot(ar, xs, ys, m, next));
        }
        sum = next;
        pos_k += 1;
    }
    sum
}

/// `after` holds, for every query and head, the sum of the values weighted by their shares, and
/// behind them what `before` holds.
pub open spec fn is_attn_out<T: Copy, A: Arith<T>>(
    ar: &A,
    s: Tensor<T>,
    v: Tensor<T>,
    kv_group: usize,
    before: Tensor<T>,
    after: Tensor<T>,
) -> bool {
    &&& after.wf()
    &&& after.shape@ == seq![s.shape@[1], s.shape@[0], v.shape@[2]]
    &&& after.data@.len() == before.data@.len()
    &&& forall|pos_q: int, h: int, d: int|
        0 <= pos_q < s.shape@[1] && 0 <= h < s.shape@[0] && 0 <= d < v.shape@[2]
            ==> is_attended(
            ar,
            s,
            v,
            kv_group as int,
            pos_q,
            h,
            d,
            after.data@[#[trigger] at3(after.strides@, pos_q, h, d)],
        )
    &&& forall|p: int|
        product(after.shape@) <= p < before.data@.len()
            ==> #[trigger] after.data@[p] == before.data@[p]
}

/// Computes into `attn`, for every query and head, the sum of the values weighted by their shares.
pub fn attn_out<T: Copy, A: Arith<T>>(
    ar: &A,
    s: &Tensor<T>,
    v: &Tensor<T>,
    kv_group: usize,
    attn: &mut Tensor<T>,
) -> (r: Result<(), String>)
    requires
        can_attend(*s, *v, kv_group, *old(attn)),
    ensures
        r is Ok,
        is_attn_out(ar, *s, *v, kv_group, *old(attn), *final(attn)),
{
    let n0 = s.shape[1];
    let n1 = s.shape[0];
    let n2 = v.shape[2];
    let shape: Vec<usize> = vec![n0, n1, n2];
    assert(shape@ =~= seq![s.shape@[1], s.shape@[0], v.shape@[2]]);
    attn.update_shape(shape);
    proof {
        lemma_strides_3(attn.shape@, attn.strides@);
        lemma_product_3(attn.shape@);
        assert(product(attn.shape@.skip(1)) <= usize::MAX);
    }
    let layer = n1 * n2;
    assert(attn.data.len() >= n0 * layer);
    let total = n0 * layer;
    let ghost data0 = attn.data@;
    let ghost shape0 = attn.shape@;
    let ghost strides0 = attn.strides@;
    let mut idx: usize = 0;
    while idx < total
        invariant
            idx <= total,
            total == n0 * (n1 * n2),
            layer == n1 * n2,
            n0 == s.shape@[1],
            n1 == s.shape@[0],
            n2 == v.shape@[2],
            can_attend(*s, *v, kv_group, *old(attn)),
            total == product(seq![s.shape@[1], s.shape@[0], v.shape@[2]]),
            attn.shape@ == shape0,
            attn.strides@ == strides0,
            attn.data@.len() == data0.len(),
            total <= data0.len(),
            forall|i: int|
                0 <= i < idx ==> is_attended(
                    ar,
                    *s,
                    *v,
                    kv_group as int,
                    i / (n1 * n2),
                    i % (n1 * n2) / (n2 as int),
                    i % (n2 as int),
                    #[trigger] attn.data@[i],
                ),
            forall|i: int| idx <= i < data0.len() ==> #[trigger] attn.data@[i] == data0[i],
        decreases total - idx,
    {
        proof {
            lemma_unflatten(idx as int, n0 as int, n1 as int, n2 as int);
        }
        let pos_q = idx / layer;
        let h = idx % layer / n2;
        let d = idx % n2;
        proof {
            if s.shape@[2] > 0 {
                assert(h as int / (kv_group as int) <= (n1 - 1) / (kv_group as int)) by {
                    vstd::arithmetic::div_mod::lemma_div_is_ordered(
                        h as int,
                        n1 - 1,
                        kv_group as int,
                    );
                }
                assert(0 <= h as int / (kv_group as int)) by (nonlinear_arith)
                    requires
                        0 <= h,
                        kv_group > 0,
                ;
            }
        }
        let value = attended(ar, s, v, kv_group, pos_q, h, d);
        attn.data[idx] = value;
        idx += 1;
    }
    proof {
        assert forall|pos_q: int, h: int, d: int|
            0 <= pos_q < s.shape@[1] && 0 <= h < s.shape@[0] && 0 <= d
                < v.shape@[2] implies is_attended(
            ar,
            *s,
            *v,
            kv_group as int,
            pos_q,
            h,
            d,
            attn.data@[#[trigger] at3(attn.strides@, pos_q, h, d)],
        ) by {
            lemma_flatten(pos_q, h, d, n0 as int, n1 as int, n2 as int);
        }
    }
    Ok(())
}

// ---- The cache of keys and values ----

/// The elements of one position of the cache.
pub open spec fn position_width(num_key_value_heads: usize, head_dim: usize) -> int {
    num_key_value_heads * head_dim
}

/// `after` is `before` with the positions of `buf` stored from `current_pos` on.
pub open spec fn is_stored<T>(
    buf: Tensor<T>,
    current_pos: usize,
    num_key_value_heads: usize,
    head_dim: usize,
    before: Tensor<T>,
    after: Tensor<T>,
) -> bool {
    &&& after.shape@ == before.shape@
    &&& after.strides@ == before.strides@
    &&& after.data@ == stored(
        before.data@,
        buf.data@,
        current_pos as int,
        buf.shape@[0] as int,
        position_width(num_key_value_heads, head_dim),
    )
}

/// Copies the positions of a buffer into the cache, from `current_pos` on.
pub fn store_kv<T: Copy>(
    cache: &mut Tensor<T>,
    buf: &Tensor<T>,
    current_pos: usize,
    num_key_value_heads: usize,
    head_dim: usize,
)
    requires
        buf.shape@.len() >= 1,
        position_width(num_key_value_heads, head_dim) <= usize::MAX,
        buf.shape@[0] * position_width(num_key_value_heads, head_dim) <= buf.data@.len(),
        (current_pos + buf.shape@[0]) * position_width(num_key_value_heads, head_dim) 
            <= old(cache).data@.len(),
    ensures
        is_stored(*buf, current_pos, num_key_value_heads, head_dim, *old(cache), *final(cache)),
{
    let ghost width0 = position_width(num_key_value_heads, head_dim);
    let seq_len = buf.shape[0];
    let width = num_key_value_heads * head_dim;
    proof {
        assert(0 <= current_pos * width && 0 <= seq_len * width && (current_pos + seq_len) * width
            == current_pos * width + seq_len * width) by (nonlinear_arith);
        assert(cache.data.len() == cache.data@.len());
    }
    let chunk = seq_len * width;
    let start = current_pos * width;
    let ghost data0 = cache.data@;
    let mut i: usize = 0;
    while i < chunk
        invariant
            i <= chunk,
            start + chunk <= cache.data.len(),
            chunk <= buf.data@.len(),
            cache.shape@ == old(cache).shape@,
            cache.strides@ == old(cache).strides@,
            cache.data@.len() == data0.len(),
            cache.data@ =~= data0.take(start as int) + buf.data@.take(i as int) + data0.skip(
                start + i,
            ),
        decreases chunk - i,
    {
        cache.data[start + i] = buf.data[i];
        i += 1;
    }
}

/// The elements of a cache after `n` positions of `width` elements were stored from `from` on.
pub open spec fn stored<T>(cache: Seq<T>, buf: Seq<T>, from: int, n: int, width: int) -> Seq<T> {
    cache.take(from * width) + buf.take(n * width) + cache.skip((from + n) * width)
}

/// Storing positions in the cache keeps all others: each stored position reads back as it stands
/// in the buffer, and each position before or behind them as it was.
pub proof fn law_cache_keeps_other_positions<T>(
    cache: Seq<T>,
    buf: Seq<T>,
    from: int,
    n: int,
    width: int,
    p: int,
)
    requires
        0 <= from,
        0 <= n,
        0 <= width,
        n * width <= buf.len(),
        (from + n) * width <= cache.len(),
        0 <= p,
        (p + 1) * width <= cache.len(),
    ensures
        stored(cache, buf, from, n, width).len() == cache.len(),
        from <= p < from + n ==> row_at(stored(cache, buf, from, n, width), p, width) == row_at(
            buf,
            p - from,
            width,
        ),
        !(from <= p < from + n) ==> row_at(stored(cache, buf, from, n, width), p, width) == row_at(
            cache,
            p,
            width,
        ),
{
    let after = stored(cache, buf, from, n, width);
    assert(0 <= from * width && 0 <= n * width && (from + n) * width == from * width + n * width
        && (p + 1) * width == p * width + width && 0 <= p * width) by (nonlinear_arith)
        requires
            0 <= from,
            0 <= n,
            0 <= width,
            0 <= p,
    ;
    if from <= p < from + n {
        let j = p - from;
        assert(p * width == from * width + j * width && (j + 1) * width <= n * width && 0 <= j
            * width && (j + 1) * width == j * width + width) by (nonlinear_arith)
            requires
                j == p - from,
                0 <= j < n,
                0 <= width,
        ;
        assert(row_at(after, p, width) =~= row_at(buf, j, width));
    } else if p < from {
        assert((p + 1) * width <= from * width) by (nonlinear_arith)
            requires
                p < from,
                0 <= width,
        ;
        assert(row_at(after, p, width) =~= row_at(cache, p, width));
    } else {
        assert((from + n) * width <= p * width) by (nonlinear_arith)
            requires
                from + n <= p,
                0 <= width,
        ;
        assert(row_at(after, p, width) =~= row_at(cache, p, width));
    }
}

} // verus!
