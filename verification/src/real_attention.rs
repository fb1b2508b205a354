//! What attention computes over the reals: scaled scores under a mask, shares, and weighted sums.
use vstd::prelude::*;

use crate::arith::{
    is_difference, is_exp, is_product, is_quotient, is_sum, of_bits, says_eq, says_lt, Arith,
    MICRO_BITS, NEG_INFINITY_BITS, ZERO_BITS,
};
use crate::attention::{
    are_scores, column, exp_step, is_attended, is_attn_out, is_exp_sum, is_masked_score, is_max_of,
    is_score, is_share, is_softmax, is_softmax_of, is_stored, lemma_strides_3, line, max_step,
    product_step, score_steps, serial_dot, softmax_steps, stored,
};
use crate::real_dot::lemma_sum_same;
use crate::reals::{are_numbers, lemma_constants, line_is_numbers, reads, sum, times, Reading};
use crate::rope::at3;
use crate::tensor::Tensor;

verus! {

proof fn lemma_serial_dot<T: Copy, A: Arith<T>>(
    ar: &A,
    m: Reading<T>,
    xs: Seq<T>,
    ys: Seq<T>,
    n: int,
    r: T,
)
    requires
        reads(ar, m),
        n <= xs.len(),
        n <= ys.len(),
        are_numbers(m, xs),
        are_numbers(m, ys),
        serial_dot(ar, xs, ys, n, r),
    ensures
        !m.is_low(r),
        m.of(r) == sum(|i: int| m.of(xs[i]) * m.of(ys[i]), n),
    decreases n,
{
    let f = |i: int| m.of(xs[i]) * m.of(ys[i]);
    if n > 0 {
        let x = xs[n - 1];
        let y = ys[n - 1];
        let p = choose|p: T|
            serial_dot(ar, xs, ys, n - 1, p) && #[trigger] product_step(ar, p, x, y, r);
        lemma_serial_dot(ar, m, xs, ys, n - 1, p);
        let q = choose|q: T| is_product(ar, x, y, q) && #[trigger] is_sum(ar, p, q, r);
        assert(!m.is_low(x) && !m.is_low(y));
        assert(f(n - 1) == m.of(x) * m.of(y));
    } else {
        lemma_constants();
    }
}

// ---- Scores ----

/// A query sees the keys up to its own position: where `q_len` queries end at `current_pos`, query
/// `pos_q` stands at `current_pos - (q_len - 1) + pos_q`. A key behind it scores minus infinity.
/// With `kv_group` heads to a key head, head `g * kv_group + j` scores the keys of head `g`: its
/// score, times the root of the dimension, is the sum of the products of their elements.
pub proof fn law_scores<T: Copy, A: Arith<T>>(
    ar: &A,
    m: Reading<T>,
    q: Tensor<T>,
    k: Tensor<T>,
    kv_group: usize,
    valid_kv_len: usize,
    current_pos: usize,
    before: Tensor<T>,
    after: Tensor<T>,
    g: int,
    j: int,
    pos_q: int,
    pos_k: int,
)
    requires
        reads(ar, m),
        are_scores(ar, q, k, kv_group, valid_kv_len, current_pos, before, after),
        q.strides@.len() >= 3,
        k.strides@.len() >= 3,
        0 <= g,
        0 <= j < kv_group,
        g * kv_group + j < q.shape@[1],
        0 <= pos_q < q.shape@[0],
        0 <= pos_k < valid_kv_len,
        q.shape@[2] > 0,
        line_is_numbers(
            m,
            q.data@,
            pos_q * q.strides@[0] + (g * kv_group + j) * q.strides@[1],
            q.strides@[2] as int,
            q.shape@[2] as int,
        ),
        line_is_numbers(
            m,
            k.data@,
            pos_k * k.strides@[0] + g * k.strides@[1],
            k.strides@[2] as int,
            q.shape@[2] as int,
        ),
    ensures
        ({
            let h = g * kv_group + j;
            let dim = q.shape@[2] as int;
            let r = after.data@[h * (q.shape@[0] * valid_kv_len) + pos_q * valid_kv_len + pos_k];
            let q_at = pos_q * q.strides@[0] + h * q.strides@[1];
            let k_at = pos_k * k.strides@[0] + g * k.strides@[1];
            let dot = sum(
                |d: int|
                    m.of(q.data@[q_at + d * q.strides@[2]]) * m.of(
                        k.data@[k_at + d * k.strides@[2]],
                    ),
                dim,
            );
            if pos_k > current_pos - (q.shape@[0] - 1) + pos_q {
                m.is_low(r)
            } else {
                &&& !m.is_low(r)
                &&& m.of(r) * m.of(r) * (dim as real) == dot * dot
                &&& m.of(r) * dot >= 0real
            }
        }),
{
    let h = g * kv_group + j;
    let dim = q.shape@[2] as int;
    assert(h / kv_group as int == g) by {
        vstd::arithmetic::div_mod::lemma_fundamental_div_mod_converse(h, kv_group as int, g, j);
    }
    assert(0 <= h) by (nonlinear_arith)
        requires
            h == g * kv_group + j,
            0 <= g,
            0 <= j < kv_group,
    ;
    lemma_strides_3(after.shape@, after.strides@);
    let at = at3(after.strides@, h, pos_q, pos_k);
    let r = after.data@[at];
    assert(is_masked_score(
        ar,
        q,
        k,
        kv_group as int,
        current_pos as int,
        h,
        pos_q,
        pos_k,
        r,
    ));
    if pos_k > current_pos - (q.shape@[0] - 1) + pos_q {
        assert(of_bits(ar, NEG_INFINITY_BITS, r));
    } else {
        let xs = line(q.data@, q.strides@, pos_q, h, dim);
        let ys = line(k.data@, k.strides@, pos_k, g, dim);
        assert(is_score(ar, xs, ys, r));
        assert(are_numbers(m, xs)) by {
            assert forall|d: int| 0 <= d < xs.len() implies !m.is_low(#[trigger] xs[d]) by {
                assert(times(d, q.strides@[2] as int) == d * q.strides@[2]);
                assert(!m.is_low(q.data@[at3(q.strides@, pos_q, h, d)]));
            }
        }
        assert(are_numbers(m, ys)) by {
            assert forall|d: int| 0 <= d < ys.len() implies !m.is_low(#[trigger] ys[d]) by {
                assert(times(d, k.strides@[2] as int) == d * k.strides@[2]);
                assert(!m.is_low(k.data@[at3(k.strides@, pos_k, g, d)]));
            }
        }
        lemma_score(ar, m, xs, ys, r);
        let q_at = pos_q * q.strides@[0] + h * q.strides@[1];
        let k_at = pos_k * k.strides@[0] + g * k.strides@[1];
        let f = |d: int| m.of(xs[d]) * m.of(ys[d]);
        let e = |d: int|
            m.of(q.data@[q_at + d * q.strides@[2]]) * m.of(k.data@[k_at + d * k.strides@[2]]);
        assert forall|d: int| 0 <= d < dim implies #[trigger] f(d) == e(d) by {
            assert(xs[d] == q.data@[q_at + d * q.strides@[2]]);
            assert(ys[d] == k.data@[k_at + d * k.strides@[2]]);
        }
        lemma_sum_same(f, e, dim);
    }
}

proof fn lemma_score<T: Copy, A: Arith<T>>(
    ar: &A,
    m: Reading<T>,
    xs: Seq<T>,
    ys: Seq<T>,
    r: T,
)
    requires
        reads(ar, m),
        are_numbers(m, xs),
        are_numbers(m, ys),
        0 < xs.len() <= usize::MAX,
        ys.len() == xs.len(),
        is_score(ar, xs, ys, r),
    ensures
        ({
            let dot = sum(|i: int| m.of(xs[i]) * m.of(ys[i]), xs.len() as int);
            &&& !m.is_low(r)
            &&& m.of(r) * m.of(r) * ((xs.len() as int) as real) == dot * dot
            &&& m.of(r) * dot >= 0real
        }),
{
    let (dot, one, dim, root, scale) = choose|dot: T, one: T, dim: T, root: T, scale: T|
        score_steps(ar, xs, ys, dot, one, dim, root, scale, r);
    lemma_serial_dot(ar, m, xs, ys, xs.len() as int, dot);
    lemma_constants();
    let n = (xs.len() as int) as real;
    let t = m.of(root);
    let s = m.of(scale);
    let d = m.of(dot);
    let v = m.of(r);
    assert(t * t == n);
    assert(t != 0real) by (nonlinear_arith)
        requires
            t * t == n,
            n > 0real,
    ;
    assert(s * t == 1real);
    assert(v == d * s);
    assert(s > 0real && s * s * n == 1real) by (nonlinear_arith)
        requires
            s * t == 1real,
            t * t == n,
            t >= 0real,
    ;
    assert(v * v * n == d * d * (s * s * n)) by (nonlinear_arith)
        requires
            v == d * s,
    ;
    assert(v * d == d * d * s) by (nonlinear_arith)
        requires
            v == d * s,
    ;
    assert(v * d >= 0real) by (nonlinear_arith)
        requires
            v * d == d * d * s,
            s > 0real,
    ;
}

// ---- Shares ----

proof fn lemma_max<T: Copy, A: Arith<T>>(ar: &A, m: Reading<T>, xs: Seq<T>, n: int, r: T)
    requires
        reads(ar, m),
        0 <= n <= xs.len(),
        is_max_of(ar, xs, n, r),
    ensures
        forall|c: int|
            0 <= c < n && !m.is_low(#[trigger] xs[c]) ==> !m.is_low(r) && m.of(xs[c]) <= m.of(r),
        !m.is_low(r) ==> exists|c: int|
            0 <= c < n && !m.is_low(#[trigger] xs[c]) && m.of(xs[c]) == m.of(r),
    decreases n,
{
    if n > 0 {
        let x = xs[n - 1];
        let p = choose|p: T| is_max_of(ar, xs, n - 1, p) && #[trigger] max_step(ar, p, x, r);
        lemma_max(ar, m, xs, n - 1, p);
        if r == p {
            if !m.is_low(x) {
                if says_lt(ar, p, x, false) {
                } else {
                    let (low, same) = choose|low: T, same: bool|
                        of_bits(ar, NEG_INFINITY_BITS, low) && #[trigger] says_eq(
                            ar,
                            x,
                            low,
                            same,
                        ) && r == (if same {
                            p
                        } else {
                            x
                        });
                }
            }
        } else {
            let (low, same) = choose|low: T, same: bool|
                of_bits(ar, NEG_INFINITY_BITS, low) && #[trigger] says_eq(ar, x, low, same) && r
                    == (if same {
                    p
                } else {
                    x
                });
            assert(r == x);
            assert(m.of(xs[n - 1]) == m.of(r));
        }
    }
}

/// The exponential of an element, zero for minus infinity.
pub open spec fn weight_of<T>(m: Reading<T>, x: T) -> real {
    if m.is_low(x) {
        0real
    } else {
        (m.exp)(m.of(x))
    }
}

proof fn lemma_exp_sum<T: Copy, A: Arith<T>>(
    ar: &A,
    m: Reading<T>,
    top: T,
    xs: Seq<T>,
    es: Seq<T>,
    n: int,
    r: T,
)
    requires
        reads(ar, m),
        !m.is_low(top),
        0 <= n <= xs.len(),
        es.len() == xs.len(),
        is_exp_sum(ar, top, xs, es, n, r),
    ensures
        !m.is_low(r),
        forall|c: int|
            0 <= c < n ==> !m.is_low(#[trigger] es[c]) && m.of(es[c]) * (m.exp)(m.of(top))
                == weight_of(m, xs[c]) && m.of(es[c]) >= 0real,
        m.of(r) * (m.exp)(m.of(top)) == sum(|c: int| weight_of(m, xs[c]), n),
        m.of(r) >= 0real,
    decreases n,
{
    let f = |c: int| weight_of(m, xs[c]);
    let big = (m.exp)(m.of(top));
    lemma_constants();
    if n > 0 {
        let x = xs[n - 1];
        let e = es[n - 1];
        let p = choose|p: T|
            is_exp_sum(ar, top, xs, es, n - 1, p) && #[trigger] exp_step(ar, top, p, x, e, r);
        lemma_exp_sum(ar, m, top, xs, es, n - 1, p);
        let (low, same) = choose|low: T, same: bool|
            of_bits(ar, NEG_INFINITY_BITS, low) && #[trigger] says_eq(ar, x, low, same) && if same {
                of_bits(ar, ZERO_BITS, e) && r == p
            } else {
                exists|gap: T|
                    is_difference(ar, x, top, gap) && #[trigger] is_exp(ar, gap, e) && is_sum(
                        ar,
                        p,
                        e,
                        r,
                    )
            };
        if !same {
            let gap = choose|gap: T|
                is_difference(ar, x, top, gap) && #[trigger] is_exp(ar, gap, e) && is_sum(
                    ar,
                    p,
                    e,
                    r,
                );
            assert(m.of(gap) + m.of(top) == m.of(x));
            assert((m.exp)(m.of(gap) + m.of(top)) == (m.exp)(m.of(gap)) * big);
            let a = m.of(p);
            let b = m.of(e);
            assert((a + b) * big == a * big + b * big) by (nonlinear_arith);
        } else {
            assert(0real * big == 0real) by (nonlinear_arith);
        }
        assert(f(n - 1) == weight_of(m, x));
    } else {
        assert(0real * big == 0real) by (nonlinear_arith);
    }
}

proof fn lemma_softmax<T: Copy, A: Arith<T>>(
    ar: &A,
    m: Reading<T>,
    xs: Seq<T>,
    ys: Seq<T>,
    t: int,
    c: int,
)
    requires
        reads(ar, m),
        is_softmax(ar, xs, ys),
        0 <= t < xs.len(),
        0 <= c < xs.len(),
        !m.is_low(xs[t]),
        forall|d: int|
            0 <= d < xs.len() && !m.is_low(#[trigger] xs[d]) ==> m.of(xs[d]) <= m.of(xs[t]),
    ensures
        ys.len() == xs.len(),
        !m.is_low(ys[c]),
        m.of(ys[c]) * (sum(|d: int| weight_of(m, xs[d]), xs.len() as int) + 8796093real
            / 8796093022208real * (m.exp)(m.of(xs[t]))) == weight_of(m, xs[c]),
        m.of(ys[c]) >= 0real,
{
    let (top, es, total) = choose|top: T, es: Seq<T>, total: T|
        softmax_steps(ar, xs, top, es, total, ys);
    lemma_max(ar, m, xs, xs.len() as int, top);
    lemma_exp_sum(ar, m, top, xs, es, xs.len() as int, total);
    lemma_constants();
    let big = (m.exp)(m.of(top));
    assert(m.of(top) == m.of(xs[t]));
    let e = es[c];
    let y = ys[c];
    assert(is_share(ar, total, e, y));
    let (low, above) = choose|low: T, above: bool|
        of_bits(ar, NEG_INFINITY_BITS, low) && #[trigger] says_lt(ar, low, e, above) && if above {
            exists|tiny: T, below: T|
                of_bits(ar, MICRO_BITS, tiny) && #[trigger] is_sum(ar, total, tiny, below)
                    && is_quotient(ar, e, below, y)
        } else {
            y == e
        };
    assert(above);
    let (tiny, below) = choose|tiny: T, below: T|
        of_bits(ar, MICRO_BITS, tiny) && #[trigger] is_sum(ar, total, tiny, below) && is_quotient(
            ar,
            e,
            below,
            y,
        );
    let s = m.of(total);
    let k = 8796093real / 8796093022208real;
    let v = m.of(y);
    let x = m.of(e);
    assert(m.of(below) == s + k);
    assert(v * (s + k) == x);
    assert(v * (s * big + k * big) == x * big) by (nonlinear_arith)
        requires
            v * (s + k) == x,
    ;
    assert(v >= 0real) by (nonlinear_arith)
        requires
            v * (s + k) == x,
            s + k > 0real,
            x >= 0real,
    ;
}

/// Along a row of a tensor, each element becomes its exponential divided by the sum of all of
/// them, to which a millionth of the greatest is added; minus infinity becomes zero. `t` is the
/// place of a greatest element.
pub proof fn law_softmax<T: Copy, A: Arith<T>>(
    ar: &A,
    m: Reading<T>,
    before: Tensor<T>,
    after: Tensor<T>,
    h: int,
    pos_q: int,
    t: int,
    c: int,
)
    requires
        reads(ar, m),
        is_softmax_of(ar, before, after),
        0 <= h < before.shape@[0],
        0 <= pos_q < before.shape@[1],
        0 <= t < before.shape@[2],
        0 <= c < before.shape@[2],
        ({
            let at = h * before.strides@[0] + pos_q * before.strides@[1];
            let step = before.strides@[2] as int;
            &&& !m.is_low(before.data@[at + t * step])
            &&& forall|d: int|
                0 <= d < before.shape@[2] && !m.is_low(before.data@[at + #[trigger] times(d, step)])
                    ==> m.of(before.data@[at + times(d, step)]) <= m.of(before.data@[at + t * step])
        }),
    ensures
        ({
            let at = h * before.strides@[0] + pos_q * before.strides@[1];
            let step = before.strides@[2] as int;
            let total = sum(
                |d: int| weight_of(m, before.data@[at + d * step]),
                before.shape@[2] as int,
            );
            let y = after.data@[at + c * step];
            &&& !m.is_low(y)
            &&& m.of(y) * (total + 8796093real / 8796093022208real * (m.exp)(
                m.of(before.data@[at + t * step]),
            )) == weight_of(m, before.data@[at + c * step])
            &&& m.of(y) >= 0real
        }),
{
    let n = before.shape@[2] as int;
    let at = h * before.strides@[0] + pos_q * before.strides@[1];
    let step = before.strides@[2] as int;
    let xs = line(before.data@, before.strides@, h, pos_q, n);
    let ys = line(after.data@, before.strides@, h, pos_q, n);
    assert(is_softmax(ar, xs, ys));
    assert forall|d: int| 0 <= d < xs.len() && !m.is_low(#[trigger] xs[d]) implies m.of(xs[d])
        <= m.of(xs[t]) by {
        assert(times(d, step) == d * step);
        assert(xs[d] == before.data@[at + d * step]);
    }
    assert(xs[t] == before.data@[at + t * step]);
    lemma_softmax(ar, m, xs, ys, t, c);
    let f = |d: int| weight_of(m, xs[d]);
    let g = |d: int| weight_of(m, before.data@[at + d * step]);
    assert forall|d: int| 0 <= d < n implies #[trigger] f(d) == g(d) by {
        assert(xs[d] == before.data@[at + d * step]);
    }
    lemma_sum_same(f, g, n);
    assert(ys[c] == after.data@[at + c * step]);
    assert(xs[c] == before.data@[at + c * step]);
}

proof fn lemma_nothing<T: Copy, A: Arith<T>>(
    ar: &A,
    m: Reading<T>,
    top: T,
    xs: Seq<T>,
    es: Seq<T>,
    n: int,
    r: T,
)
    requires
        reads(ar, m),
        0 <= n <= xs.len(),
        es.len() == xs.len(),
        forall|d: int| 0 <= d < xs.len() ==> m.is_low(#[trigger] xs[d]),
        is_exp_sum(ar, top, xs, es, n, r),
    ensures
        !m.is_low(r),
        m.of(r) == 0real,
        forall|c: int| 0 <= c < n ==> !m.is_low(#[trigger] es[c]) && m.of(es[c]) == 0real,
    decreases n,
{
    lemma_constants();
    if n > 0 {
        let p = choose|p: T|
            is_exp_sum(ar, top, xs, es, n - 1, p) && #[trigger] exp_step(
                ar,
                top,
                p,
                xs[n - 1],
                es[n - 1],
                r,
            );
        lemma_nothing(ar, m, top, xs, es, n - 1, p);
        assert(m.is_low(xs[n - 1]));
    }
}

/// Where a row holds nothing but minus infinity, all its shares are zero.
pub proof fn law_softmax_of_nothing<T: Copy, A: Arith<T>>(
    ar: &A,
    m: Reading<T>,
    before: Tensor<T>,
    after: Tensor<T>,
    h: int,
    pos_q: int,
    c: int,
)
    requires
        reads(ar, m),
        is_softmax_of(ar, before, after),
        0 <= h < before.shape@[0],
        0 <= pos_q < before.shape@[1],
        0 <= c < before.shape@[2],
        forall|d: int|
            0 <= d < before.shape@[2] ==> m.is_low(
                before.data@[h * before.strides@[0] + pos_q * before.strides@[1] + #[trigger] times(
                    d,
                    before.strides@[2] as int,
                )],
            ),
    ensures
        ({
            let y = after.data@[h * before.strides@[0] + pos_q * before.strides@[1] + c
                * before.strides@[2]];
            !m.is_low(y) && m.of(y) == 0real
        }),
{
    let n = before.shape@[2] as int;
    let at = h * before.strides@[0] + pos_q * before.strides@[1];
    let step = before.strides@[2] as int;
    let xs = line(before.data@, before.strides@, h, pos_q, n);
    let ys = line(after.data@, before.strides@, h, pos_q, n);
    assert(is_softmax(ar, xs, ys));
    let (top, es, total) = choose|top: T, es: Seq<T>, total: T|
        softmax_steps(ar, xs, top, es, total, ys);
    assert forall|d: int| 0 <= d < xs.len() implies m.is_low(#[trigger] xs[d]) by {
        assert(times(d, step) == d * step);
        assert(xs[d] == before.data@[at + d * step]);
    }
    lemma_nothing(ar, m, top, xs, es, n, total);
    lemma_constants();
    let e = es[c];
    let y = ys[c];
    assert(is_share(ar, total, e, y));
    assert(y == after.data@[at + c * step]);
    let (low, above) = choose|low: T, above: bool|
        of_bits(ar, NEG_INFINITY_BITS, low) && #[trigger] says_lt(ar, low, e, above) && if above {
            exists|tiny: T, below: T|
                of_bits(ar, MICRO_BITS, tiny) && #[trigger] is_sum(ar, total, tiny, below)
                    && is_quotient(ar, e, below, y)
        } else {
            y == e
        };
    assert(above);
    let k = 8796093real / 8796093022208real;
    let v = m.of(y);
    assert(v == 0real) by (nonlinear_arith)
        requires
            v * k == 0real,
            k > 0real,
    ;
}

// ---- The weighted sum ----

/// With `kv_group` heads to a value head, what head `g * kv_group + j` attends to is the sum over
/// all positions of its share times the value of head `g` there.
pub proof fn law_weighted_sum<T: Copy, A: Arith<T>>(
    ar: &A,
    m: Reading<T>,
    s: Tensor<T>,
    v: Tensor<T>,
    kv_group: usize,
    before: Tensor<T>,
    after: Tensor<T>,
    g: int,
    j: int,
    pos_q: int,
    d: int,
)
    requires
        reads(ar, m),
        is_attn_out(ar, s, v, kv_group, before, after),
        s.strides@.len() >= 3,
        v.strides@.len() >= 3,
        0 <= g,
        0 <= j < kv_group,
        g * kv_group + j < s.shape@[0],
        0 <= pos_q < s.shape@[1],
        0 <= d < v.shape@[2],
        line_is_numbers(
            m,
            s.data@,
            (g * kv_group + j) * s.strides@[0] + pos_q * s.strides@[1],
            s.strides@[2] as int,
            s.shape@[2] as int,
        ),
        line_is_numbers(
            m,
            v.data@,
            g * v.strides@[1] + d * v.strides@[2],
            v.strides@[0] as int,
            s.shape@[2] as int,
        ),
    ensures
        ({
            let h = g * kv_group + j;
            let heads = s.shape@[0] as int;
            let dim = v.shape@[2] as int;
            let r = after.data@[pos_q * (heads * dim) + h * dim + d];
            let s_at = h * s.strides@[0] + pos_q * s.strides@[1];
            let v_at = g * v.strides@[1] + d * v.strides@[2];
            &&& !m.is_low(r)
            &&& m.of(r) == sum(
                |p: int|
                    m.of(s.data@[s_at + p * s.strides@[2]]) * m.of(
                        v.data@[v_at + p * v.strides@[0]],
                    ),
                s.shape@[2] as int,
            )
        }),
{
    let h = g * kv_group + j;
    let n = s.shape@[2] as int;
    assert(h / kv_group as int == g) by {
        vstd::arithmetic::div_mod::lemma_fundamental_div_mod_converse(h, kv_group as int, g, j);
    }
    assert(0 <= h) by (nonlinear_arith)
        requires
            h == g * kv_group + j,
            0 <= g,
            0 <= j < kv_group,
    ;
    lemma_strides_3(after.shape@, after.strides@);
    let r = after.data@[at3(after.strides@, pos_q, h, d)];
    assert(is_attended(ar, s, v, kv_group as int, pos_q, h, d, r));
    let xs = line(s.data@, s.strides@, h, pos_q, n);
    let ys = column(v.data@, v.strides@, g, d, n);
    assert(are_numbers(m, xs)) by {
        assert forall|p: int| 0 <= p < xs.len() implies !m.is_low(#[trigger] xs[p]) by {
            assert(times(p, s.strides@[2] as int) == p * s.strides@[2]);
            assert(!m.is_low(s.data@[at3(s.strides@, h, pos_q, p)]));
        }
    }
    assert(are_numbers(m, ys)) by {
        assert forall|p: int| 0 <= p < ys.len() implies !m.is_low(#[trigger] ys[p]) by {
            assert(times(p, v.strides@[0] as int) == p * v.strides@[0]);
            assert(!m.is_low(v.data@[at3(v.strides@, p, g, d)]));
        }
    }
    lemma_serial_dot(ar, m, xs, ys, n, r);
    let s_at = h * s.strides@[0] + pos_q * s.strides@[1];
    let v_at = g * v.strides@[1] + d * v.strides@[2];
    let e = |p: int| m.of(xs[p]) * m.of(ys[p]);
    let f = |p: int|
        m.of(s.data@[s_at + p * s.strides@[2]]) * m.of(v.data@[v_at + p * v.strides@[0]]);
    assert forall|p: int| 0 <= p < n implies #[trigger] e(p) == f(p) by {
        assert(xs[p] == s.data@[s_at + p * s.strides@[2]]);
        assert(ys[p] == v.data@[v_at + p * v.strides@[0]]);
    }
    lemma_sum_same(e, f, n);
}

// ---- The cache ----

/// Element `j` of stored position `i` stands in the cache at position `current_pos + i`, and every
/// other position keeps what it held; a position takes an element for each head and dimension.
pub proof fn law_positions_are_stored<T>(
    buf: Tensor<T>,
    current_pos: usize,
    kv_heads: usize,
    head_dim: usize,
    before: Tensor<T>,
    after: Tensor<T>,
    p: int,
    j: int,
)
    requires
        is_stored(buf, current_pos, kv_heads, head_dim, before, after),
        buf.shape@[0] * (kv_heads * head_dim) <= buf.data@.len(),
        (current_pos + buf.shape@[0]) * (kv_heads * head_dim) <= before.data@.len(),
        0 <= p,
        0 <= j < kv_heads * head_dim,
        (p + 1) * (kv_heads * head_dim) <= before.data@.len(),
    ensures
        ({
            let width = kv_heads * head_dim;
            after.data@[p * width + j] == if current_pos <= p < current_pos + buf.shape@[0] {
                buf.data@[(p - current_pos) * width + j]
            } else {
                before.data@[p * width + j]
            }
        }),
        after.data@.len() == before.data@.len(),
{
    let width = kv_heads * head_dim;
    let from = current_pos as int;
    let n = buf.shape@[0] as int;
    assert(after.data@ == stored(before.data@, buf.data@, from, n, width));
    assert(0 <= from * width && 0 <= n * width && (from + n) * width == from * width + n * width && (p
        + 1) * width == p * width + width && 0 <= p * width && (p - from) * width == p * width
        - from * width) by (nonlinear_arith)
        requires
            0 <= from,
            0 <= n,
            0 <= width,
            0 <= p,
    ;
    if p < from {
        assert((p + 1) * width <= from * width) by (nonlinear_arith)
            requires
                p < from,
                0 <= width,
        ;
    } else if p < from + n {
        assert(from * width <= p * width && (p + 1) * width <= (from + n) * width)
            by (nonlinear_arith)
            requires
                from <= p < from + n,
                0 <= width,
        ;
    } else {
        assert((from + n) * width <= p * width) by (nonlinear_arith)
            requires
                from + n <= p,
                0 <= width,
        ;
    }
}

} // verus!
