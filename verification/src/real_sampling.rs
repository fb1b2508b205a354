//! How a token is chosen, over the reals: by the probabilities of the logits at the temperature,
//! among the most likely ones that together reach a certain probability.
use std::time::Duration;
use vstd::prelude::*;
use vstd::set_lib::{lemma_int_range, lemma_len_subset, set_int_range};

use crate::arith::{
    bits_of, is_difference, is_exp, is_max, is_quotient, is_sum, of_bits, of_u32, says_le, says_lt,
    Arith,
};
use crate::real_dot::lemma_sum_same;
use crate::reals::{are_numbers, is_finite, lemma_constants, reads, sum, Reading};
use crate::sampling::{
    are_keys, are_shares, are_sums, are_tempered, drawing_sums, drawn_place, falling_key,
    is_choice, is_chosen, is_chosen_by, is_exp_step, is_exp_total, is_falling_order, is_greatest,
    is_key, is_random, is_random_at, is_ranking, is_short, is_sum_at, share_steps, short_sums, stay_below,
    stirred, Choice, P_BITS, TEMPERATURE_BITS,
};
use crate::time::nanos;

verus! {

/// The temperature: the number nearest to seven tenths.
pub open spec fn temperature() -> real {
    11744051real / 16777216real
}

/// What the tokens reach together among which one is drawn: the number nearest to nine tenths.
pub open spec fn reach() -> real {
    15099494real / 16777216real
}

/// The exponential of a logit at the temperature.
pub open spec fn logit_weight<T>(m: Reading<T>, x: T) -> real {
    (m.exp)(m.of(x) / temperature())
}

/// The probability of a token: the exponential of its logit at the temperature, divided by the sum
/// of all of them.
pub open spec fn probability<T>(m: Reading<T>, logits: Seq<T>, i: int) -> real {
    logit_weight(m, logits[i]) / sum(|j: int| logit_weight(m, logits[j]), logits.len() as int)
}

/// The probabilities of the first `k` tokens in an order, added up.
pub open spec fn mass<T>(m: Reading<T>, logits: Seq<T>, order: Seq<usize>, k: int) -> real {
    sum(|t: int| probability(m, logits, order[t] as int), k)
}

// ---- The probabilities ----

/// Logits are divided by the temperature: times the temperature they are what they were.
pub proof fn law_temperature<T: Copy, A: Arith<T>>(
    ar: &A,
    m: Reading<T>,
    xs: Seq<T>,
    ys: Seq<T>,
    i: int,
)
    requires
        reads(ar, m),
        are_tempered(ar, xs, ys),
        0 <= i < xs.len(),
        !m.is_low(xs[i]),
    ensures
        ys.len() == xs.len(),
        !m.is_low(ys[i]),
        m.of(ys[i]) * (11744051real / 16777216real) == m.of(xs[i]),
{
    let t = choose|t: T| #[trigger]
        of_bits(ar, TEMPERATURE_BITS, t) && forall|i: int|
            0 <= i < xs.len() ==> is_quotient(ar, xs[i], t, #[trigger] ys[i]);
    lemma_constants();
    assert(is_finite(0x3f33_3333));
    assert(is_quotient(ar, xs[i], t, ys[i]));
}

/// The gap between two logits widens at the temperature.
pub proof fn law_gaps_widen<T: Copy, A: Arith<T>>(
    ar: &A,
    m: Reading<T>,
    xs: Seq<T>,
    ys: Seq<T>,
    i: int,
    j: int,
)
    requires
        reads(ar, m),
        are_tempered(ar, xs, ys),
        0 <= i < xs.len(),
        0 <= j < xs.len(),
        !m.is_low(xs[i]),
        !m.is_low(xs[j]),
        m.of(xs[i]) > m.of(xs[j]),
    ensures
        m.of(ys[i]) - m.of(ys[j]) > m.of(xs[i]) - m.of(xs[j]),
{
    law_temperature(ar, m, xs, ys, i);
    law_temperature(ar, m, xs, ys, j);
}

proof fn lemma_greatest<T: Copy, A: Arith<T>>(ar: &A, m: Reading<T>, xs: Seq<T>, n: int, r: T)
    requires
        reads(ar, m),
        0 < n <= xs.len(),
        are_numbers(m, xs),
        is_greatest(ar, xs, n, r),
    ensures
        !m.is_low(r),
{
    let p = choose|p: T| is_greatest(ar, xs, n - 1, p) && #[trigger] is_max(ar, p, xs[n - 1], r);
    assert(!m.is_low(xs[n - 1]));
}

proof fn lemma_exp_total<T: Copy, A: Arith<T>>(
    ar: &A,
    m: Reading<T>,
    top: T,
    xs: Seq<T>,
    es: Seq<T>,
    n: int,
    r: T,
)
    requires
        reads(ar, m),
        !m.is_low(top),
        0 <= n <= xs.len(),
        es.len() == xs.len(),
        are_numbers(m, xs),
        is_exp_total(ar, top, xs, es, n, r),
    ensures
        !m.is_low(r),
        forall|c: int|
            0 <= c < n ==> !m.is_low(#[trigger] es[c]) && m.of(es[c]) * (m.exp)(m.of(top))
                == (m.exp)(m.of(xs[c])) && m.of(es[c]) > 0real,
        m.of(r) * (m.exp)(m.of(top)) == sum(|c: int| (m.exp)(m.of(xs[c])), n),
        m.of(r) >= 0real,
        n > 0 ==> m.of(r) > 0real,
    decreases n,
{
    let f = |c: int| (m.exp)(m.of(xs[c]));
    let big = (m.exp)(m.of(top));
    lemma_constants();
    if n > 0 {
        let x = xs[n - 1];
        let e = es[n - 1];
        let p = choose|p: T|
            is_exp_total(ar, top, xs, es, n - 1, p) && #[trigger] is_exp_step(ar, top, p, x, e, r);
        lemma_exp_total(ar, m, top, xs, es, n - 1, p);
        assert(!m.is_low(x));
        let gap = choose|gap: T|
            is_difference(ar, x, top, gap) && #[trigger] is_exp(ar, gap, e) && is_sum(ar, p, e, r);
        assert(m.of(gap) + m.of(top) == m.of(x));
        assert((m.exp)(m.of(gap) + m.of(top)) == (m.exp)(m.of(gap)) * big);
        let a = m.of(p);
        let b = m.of(e);
        assert((a + b) * big == a * big + b * big) by (nonlinear_arith);
        assert(f(n - 1) == (m.exp)(m.of(x)));
    } else {
        assert(0real * big == 0real) by (nonlinear_arith);
    }
}

proof fn lemma_shares<T: Copy, A: Arith<T>>(
    ar: &A,
    m: Reading<T>,
    xs: Seq<T>,
    ys: Seq<T>,
    c: int,
)
    requires
        reads(ar, m),
        are_numbers(m, xs),
        are_shares(ar, xs, ys),
        0 <= c < xs.len(),
    ensures
        ys.len() == xs.len(),
        !m.is_low(ys[c]),
        m.of(ys[c]) * sum(|d: int| (m.exp)(m.of(xs[d])), xs.len() as int) == (m.exp)(m.of(xs[c])),
        sum(|d: int| (m.exp)(m.of(xs[d])), xs.len() as int) > 0real,
        m.of(ys[c]) > 0real,
{
    let (top, es, total) = choose|top: T, es: Seq<T>, total: T| #[trigger]
        share_steps(ar, xs, top, es, total, ys);
    let n = xs.len() as int;
    lemma_greatest(ar, m, xs, n, top);
    lemma_exp_total(ar, m, top, xs, es, n, total);
    let e = es[c];
    let y = ys[c];
    assert(is_quotient(ar, e, total, y));
    let s = m.of(total);
    let v = m.of(y);
    let x = m.of(e);
    let big = (m.exp)(m.of(top));
    assert(v * s == x);
    assert(v * (s * big) == x * big) by (nonlinear_arith)
        requires
            v * s == x,
    ;
    assert(s * big > 0real) by (nonlinear_arith)
        requires
            s > 0real,
            big > 0real,
    ;
    assert(v > 0real) by (nonlinear_arith)
        requires
            v * s == x,
            s > 0real,
            x > 0real,
    ;
}

/// The probabilities of a choice are those of the logits.
proof fn lemma_probabilities<T: Copy, A: Arith<T>>(
    ar: &A,
    m: Reading<T>,
    logits: Seq<T>,
    tempered: Seq<T>,
    ps: Seq<T>,
)
    requires
        reads(ar, m),
        are_numbers(m, logits),
        are_tempered(ar, logits, tempered),
        are_shares(ar, tempered, ps),
    ensures
        logits.len() > 0 ==> ps.len() == logits.len(),
        forall|i: int|
            0 <= i < logits.len() ==> !m.is_low(#[trigger] ps[i]) && m.of(ps[i]) == probability(
                m,
                logits,
                i,
            ) && m.of(ps[i]) > 0real,
{
    let n = logits.len() as int;
    assert forall|i: int| 0 <= i < n implies !m.is_low(#[trigger] tempered[i]) && m.of(tempered[i])
        == m.of(logits[i]) / temperature() by {
        assert(!m.is_low(logits[i]));
        law_temperature(ar, m, logits, tempered, i);
        let t = temperature();
        let x = m.of(logits[i]);
        let y = m.of(tempered[i]);
        assert(y == x / t) by (nonlinear_arith)
            requires
                y * t == x,
                t > 0real,
        ;
    }
    assert(are_numbers(m, tempered));
    assert forall|i: int| 0 <= i < n implies !m.is_low(#[trigger] ps[i]) && m.of(ps[i])
        == probability(m, logits, i) && m.of(ps[i]) > 0real && ps.len() == n by {
        lemma_shares(ar, m, tempered, ps, i);
        let f = |d: int| (m.exp)(m.of(tempered[d]));
        let g = |d: int| logit_weight(m, logits[d]);
        assert forall|d: int| 0 <= d < n implies #[trigger] f(d) == g(d) by {
            assert(m.of(tempered[d]) == m.of(logits[d]) / temperature());
        }
        lemma_sum_same(f, g, n);
        let s = sum(g, n);
        let v = m.of(ps[i]);
        let w = logit_weight(m, logits[i]);
        assert(v == w / s) by (nonlinear_arith)
            requires
                v * s == w,
                s > 0real,
        ;
    }
    if n > 0 {
        assert(ps.len() == n) by {
            assert(!m.is_low(ps[0]));
        }
    }
}

// ---- The choice ----

/// The token at place `i` is the first before which the others, as shares of all that are drawn
/// from, reach the random number.
pub open spec fn is_hit<T>(
    m: Reading<T>,
    logits: Seq<T>,
    order: Seq<usize>,
    n: int,
    random: real,
    i: int,
) -> bool {
    &&& 0 <= i < n
    &&& mass(m, logits, order, i) >= random * mass(m, logits, order, n)
    &&& forall|k: int|
        0 <= k < i ==> #[trigger] mass(m, logits, order, k) < random * mass(m, logits, order, n)
}

/// How a token comes from the logits and a random number. `order` lists the tokens from the most
/// to the least likely. The first `n` of them, and no fewer, reach together what is needed. The
/// token is the one that is hit among these, or the first of them where none is hit, or token zero
/// is. Its score is its share in the probability of the `n` tokens.
pub open spec fn is_pick<T>(
    m: Reading<T>,
    logits: Seq<T>,
    random: real,
    order: Seq<usize>,
    n: int,
    place: int,
    token: usize,
    score: real,
) -> bool {
    &&& order.len() == logits.len()
    &&& order.no_duplicates()
    &&& forall|i: int| 0 <= i < order.len() ==> (#[trigger] order[i]) < logits.len()
    &&& forall|i: int, j: int|
        0 <= i < j < order.len() ==> probability(m, logits, (#[trigger] order[i]) as int)
            >= probability(m, logits, (#[trigger] order[j]) as int)
    &&& 1 <= n <= order.len()
    &&& forall|k: int| 0 <= k < n ==> #[trigger] mass(m, logits, order, k) < reach()
    &&& mass(m, logits, order, n) >= reach()
    &&& 0 <= place < n
    &&& if place == 0 {
        forall|i: int| #[trigger] is_hit(m, logits, order, n, random, i) && i > 0 ==> order[i] == 0
    } else {
        is_hit(m, logits, order, n, random, place) && order[place] != 0
    }
    &&& token == order[place]
    &&& score * mass(m, logits, order, n) == probability(m, logits, token as int)
}

proof fn lemma_falling<T: Copy, A: Arith<T>>(
    ar: &A,
    m: Reading<T>,
    ps: Seq<T>,
    order: Seq<usize>,
    i: int,
    j: int,
)
    requires
        reads(ar, m),
        is_falling_order(ar, ps, order),
        forall|k: int| 0 <= k < ps.len() ==> !m.is_low(#[trigger] ps[k]) && m.of(ps[k]) > 0real,
        0 <= i < j < order.len(),
    ensures
        order.len() == ps.len(),
        order.no_duplicates(),
        order[i] < ps.len(),
        order[j] < ps.len(),
        m.of(ps[order[i] as int]) >= m.of(ps[order[j] as int]),
{
    let keys = choose|keys: Seq<u32>| #[trigger] are_keys(ar, ps, keys) && is_ranking(keys, order);
    let a = order[i] as int;
    let b = order[j] as int;
    assert(is_key(ar, ps[a], keys[a]) && is_key(ar, ps[b], keys[b]));
    let x = choose|bits: u32| #[trigger] bits_of(ar, ps[a], bits) && keys[a] == falling_key(bits);
    let y = choose|bits: u32| #[trigger] bits_of(ar, ps[b], bits) && keys[b] == falling_key(bits);
    assert(!m.is_low(ps[a]) && !m.is_low(ps[b]));
    assert(x < 0x8000_0000 && y < 0x8000_0000);
    assert(keys[a] <= keys[b]);
}

proof fn lemma_running_sums<T: Copy, A: Arith<T>>(
    ar: &A,
    m: Reading<T>,
    values: Seq<T>,
    sums: Seq<T>,
    k: int,
)
    requires
        reads(ar, m),
        are_numbers(m, values),
        are_sums(ar, values, sums),
        0 <= k < sums.len(),
    ensures
        !m.is_low(sums[k]),
        m.of(sums[k]) == sum(|t: int| m.of(values[t]), k),
    decreases k,
{
    lemma_constants();
    let f = |t: int| m.of(values[t]);
    if k > 0 {
        lemma_running_sums(ar, m, values, sums, k - 1);
        assert(is_sum_at(ar, values, sums, k - 1));
        assert(!m.is_low(values[k - 1]));
        assert(f(k - 1) == m.of(values[k - 1]));
    }
}

proof fn lemma_scaled_sum(f: spec_fn(int) -> real, g: spec_fn(int) -> real, whole: real, n: int)
    requires
        forall|i: int| 0 <= i < n ==> #[trigger] f(i) * whole == g(i),
    ensures
        sum(f, n) * whole == sum(g, n),
    decreases n,
{
    if n > 0 {
        lemma_scaled_sum(f, g, whole, n - 1);
        let a = sum(f, n - 1);
        let b = f(n - 1);
        assert((a + b) * whole == a * whole + b * whole) by (nonlinear_arith);
        assert(f(n - 1) * whole == g(n - 1));
    } else {
        assert(0real * whole == 0real) by (nonlinear_arith);
    }
}

/// The token that is chosen, and its score, come from the logits and the random number as told.
pub proof fn law_choice<T: Copy, A: Arith<T>>(
    ar: &A,
    m: Reading<T>,
    logits: Seq<T>,
    random: T,
    token: usize,
    score: T,
)
    requires
        reads(ar, m),
        are_numbers(m, logits),
        !m.is_low(random),
        logits.len() > 0,
        is_chosen(ar, logits, random, Some((token, score))),
    ensures
        !m.is_low(score),
        exists|order: Seq<usize>, n: int, place: int| #[trigger]
            is_pick(m, logits, m.of(random), order, n, place, token, m.of(score)),
{
    let c = choose|c: Choice<T>| #[trigger]
        is_chosen_by(ar, logits, random, c, Some((token, score)));
    assert(is_choice(ar, logits, random, c));
    lemma_probabilities(ar, m, logits, c.tempered, c.probabilities);
    let order = c.order;
    let keys = choose|keys: Seq<u32>| #[trigger]
        are_keys(ar, c.probabilities, keys) && is_ranking(keys, order);
    assert(order.len() == logits.len());
    assert forall|k: int| 0 <= k < c.probabilities.len() implies !m.is_low(
        #[trigger] c.probabilities[k],
    ) && m.of(c.probabilities[k]) > 0real by {}
    let f = |t: int| probability(m, logits, order[t] as int);
    let v = |t: int| m.of(c.falling[t]);
    assert forall|t: int| 0 <= t < order.len() implies !m.is_low(#[trigger] c.falling[t])
        && m.of(c.falling[t]) == f(t) && f(t) > 0real by {
        assert(order[t] < logits.len());
        assert(!m.is_low(c.probabilities[order[t] as int]));
    }
    assert(are_numbers(m, c.falling));
    let n = c.sums.len() - 1;
    assert(1 <= n <= order.len());
    assert forall|k: int| 0 <= k <= n implies !m.is_low(#[trigger] c.sums[k]) && m.of(c.sums[k])
        == mass(m, logits, order, k) by {
        lemma_running_sums(ar, m, c.falling, c.sums, k);
        assert forall|t: int| 0 <= t < k implies #[trigger] v(t) == f(t) by {
            assert(m.of(c.falling[t]) == f(t));
        }
        lemma_sum_same(v, f, k);
    }
    lemma_constants();
    let p = choose|p: T| #[trigger]
        of_bits(ar, P_BITS, p) && are_sums(ar, c.falling, c.sums) && stay_below(ar, p, c.sums)
            && says_lt(ar, c.sums.last(), p, false);
    assert(m.of(p) == reach());
    assert forall|k: int| 0 <= k < n implies #[trigger] mass(m, logits, order, k) < reach() by {
        assert(says_lt(ar, c.sums[k], p, true));
        assert(m.of(c.sums[k]) == mass(m, logits, order, k));
    }
    assert(m.of(c.sums[n]) == mass(m, logits, order, n));
    let whole = mass(m, logits, order, n);
    assert(whole >= reach());
    assert forall|i: int, j: int| 0 <= i < j < order.len() implies probability(
        m,
        logits,
        (#[trigger] order[i]) as int,
    ) >= probability(m, logits, (#[trigger] order[j]) as int) by {
        lemma_falling(ar, m, c.probabilities, order, i, j);
        assert(!m.is_low(c.probabilities[order[i] as int]));
        assert(!m.is_low(c.probabilities[order[j] as int]));
    }
    let parts = c.parts;
    assert forall|t: int| 0 <= t < n implies !m.is_low(#[trigger] parts[t]) && m.of(parts[t])
        * whole == f(t) by {
        assert(is_quotient(ar, c.falling[t], c.sums[n], parts[t]));
        assert(!m.is_low(c.falling[t]));
    }
    assert(are_numbers(m, parts));
    let x = m.of(random);
    let sums = choose|sums: Seq<T>| #[trigger]
        drawing_sums(ar, parts, random, sums, c.drawn);
    let u = |t: int| m.of(parts[t]);
    assert forall|k: int| 0 <= k < sums.len() && k <= n implies !m.is_low(#[trigger] sums[k])
        && m.of(sums[k]) * whole == mass(m, logits, order, k) by {
        lemma_running_sums(ar, m, parts, sums, k);
        assert forall|t: int| 0 <= t < k implies #[trigger] u(t) * whole == f(t) by {
            assert(m.of(parts[t]) * whole == f(t));
        }
        lemma_scaled_sum(u, f, whole, k);
    }
    assert forall|k: int| 0 <= k < sums.len() && k <= n implies (m.of(#[trigger] sums[k]) >= x
        <==> mass(m, logits, order, k) >= x * whole) by {
        let s = m.of(sums[k]);
        assert(s >= x <==> s * whole >= x * whole) by (nonlinear_arith)
            requires
                whole > 0real,
        ;
        assert(m.of(sums[k]) * whole == mass(m, logits, order, k));
    }
    match c.drawn {
        Some(i) => {
            let i = i as int;
            assert(says_le(ar, random, sums[i], true));
            assert(m.of(sums[i]) >= x);
            assert forall|k: int| 0 <= k < i implies #[trigger] mass(m, logits, order, k) < x
                * whole by {
                assert(says_le(ar, random, sums[k], false));
                assert(!m.is_low(sums[k]));
            }
            assert(is_hit(m, logits, order, n, x, i));
            assert forall|k: int| #[trigger] is_hit(m, logits, order, n, x, k) implies k == i by {
                if k < i {
                    assert(mass(m, logits, order, k) < x * whole);
                } else if i < k {
                    assert(mass(m, logits, order, i) < x * whole);
                }
            }
        },
        None => {
            assert forall|k: int| !#[trigger] is_hit(m, logits, order, n, x, k) by {
                if is_hit(m, logits, order, n, x, k) {
                    assert(says_le(ar, random, sums[k], false));
                    assert(!m.is_low(sums[k]));
                }
            }
        },
    }
    let place = drawn_place(order, c.drawn);
    assert(m.of(parts[place]) * whole == f(place));
    assert(is_pick(m, logits, x, order, n, place, token, m.of(score)));
}

// ---- That there is a choice ----

/// The values of `f` at places, added up.
spec fn sum_at(f: spec_fn(int) -> real, places: Seq<int>) -> real
    decreases places.len(),
{
    if places.len() == 0 {
        0real
    } else {
        sum_at(f, places.drop_last()) + f(places.last())
    }
}

proof fn lemma_sum_at_without(f: spec_fn(int) -> real, places: Seq<int>, p: int)
    requires
        0 <= p < places.len(),
    ensures
        sum_at(f, places) == f(places[p]) + sum_at(f, places.remove(p)),
    decreases places.len(),
{
    let n = places.len() - 1;
    if p == n {
        assert(places.remove(p) =~= places.drop_last());
    } else {
        lemma_sum_at_without(f, places.drop_last(), p);
        assert(places.remove(p).drop_last() =~= places.drop_last().remove(p));
        assert(places.remove(p).last() == places.last());
    }
}

proof fn lemma_has_last(places: Seq<int>)
    requires
        places.len() > 0,
        places.no_duplicates(),
        forall|t: int| 0 <= t < places.len() ==> 0 <= #[trigger] places[t] < places.len(),
    ensures
        places.contains(places.len() - 1),
{
    let n = places.len() as int;
    if !places.contains(n - 1) {
        let below = set_int_range(0, n - 1);
        lemma_int_range(0, n - 1);
        places.unique_seq_to_set();
        assert forall|x: int| #[trigger] places.to_set().contains(x) implies below.contains(x) by {
            let t = choose|t: int| 0 <= t < n && places[t] == x;
            assert(0 <= places[t] < n);
        }
        lemma_len_subset(places.to_set(), below);
    }
}

proof fn lemma_reordered(f: spec_fn(int) -> real, places: Seq<int>)
    requires
        places.no_duplicates(),
        forall|t: int| 0 <= t < places.len() ==> 0 <= #[trigger] places[t] < places.len(),
    ensures
        sum_at(f, places) == sum(f, places.len() as int),
    decreases places.len(),
{
    let n = places.len() as int;
    if n > 0 {
        lemma_has_last(places);
        let p = choose|p: int| 0 <= p < n && places[p] == n - 1;
        let rest = places.remove(p);
        assert forall|t: int| 0 <= t < rest.len() implies 0 <= #[trigger] rest[t] < rest.len() by {
            let o = if t < p {
                t
            } else {
                t + 1
            };
            assert(rest[t] == places[o]);
            assert(places[o] != places[p]);
        }
        assert(rest.no_duplicates());
        lemma_reordered(f, rest);
        lemma_sum_at_without(f, places, p);
    }
}

proof fn lemma_sum_of_places(
    f: spec_fn(int) -> real,
    g: spec_fn(int) -> real,
    places: Seq<int>,
    n: int,
)
    requires
        0 <= n <= places.len(),
        forall|t: int| 0 <= t < n ==> #[trigger] g(t) == f(places[t]),
    ensures
        sum(g, n) == sum_at(f, places.take(n)),
    decreases n,
{
    if n > 0 {
        lemma_sum_of_places(f, g, places, n - 1);
        assert(places.take(n).drop_last() =~= places.take(n - 1));
        assert(g(n - 1) == f(places[n - 1]));
    }
}

proof fn lemma_sum_positive(f: spec_fn(int) -> real, n: int)
    requires
        forall|i: int| 0 <= i < n ==> #[trigger] f(i) > 0real,
    ensures
        n > 0 ==> sum(f, n) > 0real,
        sum(f, n) >= 0real,
    decreases n,
{
    if n > 0 {
        lemma_sum_positive(f, n - 1);
        assert(f(n - 1) > 0real);
    }
}

/// The probabilities of all tokens, in any order, add up to one.
pub proof fn law_probabilities_add_up<T: Copy, A: Arith<T>>(
    ar: &A,
    m: Reading<T>,
    logits: Seq<T>,
    order: Seq<usize>,
)
    requires
        reads(ar, m),
        logits.len() > 0,
        order.len() == logits.len(),
        order.no_duplicates(),
        forall|i: int| 0 <= i < order.len() ==> (#[trigger] order[i]) < logits.len(),
    ensures
        mass(m, logits, order, logits.len() as int) == 1real,
{
    let n = logits.len() as int;
    let places = Seq::new(order.len(), |t: int| order[t] as int);
    let f = |i: int| probability(m, logits, i);
    let g = |t: int| probability(m, logits, order[t] as int);
    assert(places.no_duplicates());
    lemma_sum_of_places(f, g, places, n);
    assert(places.take(n) =~= places);
    lemma_reordered(f, places);
    let w = |i: int| logit_weight(m, logits[i]);
    lemma_sum_positive(w, n);
    let whole = sum(w, n);
    assert forall|i: int| 0 <= i < n implies #[trigger] f(i) * whole == w(i) by {
        let a = w(i);
        assert(a / whole * whole == a) by (nonlinear_arith)
            requires
                whole > 0real,
        ;
    }
    lemma_scaled_sum(f, w, whole, n);
    let s = sum(f, n);
    assert(s == 1real) by (nonlinear_arith)
        requires
            s * whole == whole,
            whole > 0real,
    ;
}

/// From logits that are numbers a token is always chosen.
pub proof fn law_some_token_is_chosen<T: Copy, A: Arith<T>>(
    ar: &A,
    m: Reading<T>,
    logits: Seq<T>,
    random: T,
)
    requires
        reads(ar, m),
        are_numbers(m, logits),
        logits.len() > 0,
    ensures
        !is_chosen(ar, logits, random, None::<(usize, T)>),
{
    if is_chosen(ar, logits, random, None::<(usize, T)>) {
        let c = choose|c: Choice<T>| #[trigger]
            is_chosen_by(ar, logits, random, c, None::<(usize, T)>);
        lemma_probabilities(ar, m, logits, c.tempered, c.probabilities);
        lemma_constants();
        let order = c.order;
        let n = logits.len() as int;
        let keys = choose|keys: Seq<u32>| #[trigger]
            are_keys(ar, c.probabilities, keys) && is_ranking(keys, order);
        let f = |t: int| probability(m, logits, order[t] as int);
        let v = |t: int| m.of(c.falling[t]);
        assert forall|t: int| 0 <= t < order.len() implies !m.is_low(#[trigger] c.falling[t])
            && v(t) == f(t) by {
            assert(order[t] < logits.len());
            assert(!m.is_low(c.probabilities[order[t] as int]));
        }
        assert(are_numbers(m, c.falling));
        if is_short(ar, c.falling) {
            let (p, sums) = choose|p: T, sums: Seq<T>| #[trigger]
                short_sums(ar, c.falling, p, sums);
            lemma_running_sums(ar, m, c.falling, sums, n);
            assert forall|t: int| 0 <= t < n implies #[trigger] v(t) == f(t) by {
                assert(!m.is_low(c.falling[t]));
            }
            lemma_sum_same(v, f, n);
            law_probabilities_add_up(ar, m, logits, order);
        } else {
            lemma_running_sums(ar, m, c.falling, c.sums, 0);
        }
    }
}

// ---- The random number ----

/// The random number of a seed is the stirred seed, divided by the greatest integer of 32 bits.
pub proof fn law_random_number<T: Copy, A: Arith<T>>(ar: &A, m: Reading<T>, seed: u32, r: T)
    requires
        reads(ar, m),
        is_random(ar, seed, r),
    ensures
        !m.is_low(r),
        m.of(r) * 4294967295real == (stirred(seed) as int) as real,
        0real <= m.of(r) <= 1real,
{
    let (n, most) = choose|n: T, most: T|
        of_u32(ar, stirred(seed), n) && of_u32(ar, u32::MAX, most) && #[trigger] is_quotient(
            ar,
            n,
            most,
            r,
        );
}

/// The random number of a time is that of the low 32 bits of its nanoseconds.
pub proof fn law_random_number_of_a_time<T: Copy, A: Arith<T>>(
    ar: &A,
    m: Reading<T>,
    since: Duration,
    r: Result<T, String>,
)
    requires
        reads(ar, m),
        is_random_at(ar, Some(since), r),
    ensures
        r is Ok,
        ({
            let seed = (nanos(since) % 4294967296) as u32;
            m.of(r->Ok_0) * 4294967295real == (stirred(seed) as int) as real
        }),
{
    law_random_number(ar, m, (nanos(since) % 4294967296) as u32, r->Ok_0);
}

/// Stirring is the sum, without carry, of the bits moved by the given numbers of places.
pub proof fn law_stirring(x: u32)
    ensures
        ({
            let b = x ^ (x << 13) ^ (x >> 17) ^ ((x << 13) >> 17);
            stirred(x) == b ^ (b << 5)
        }),
{
    assert(({
        let a = x ^ (x << 13);
        let b = a ^ (a >> 17);
        let c = x ^ (x << 13) ^ (x >> 17) ^ ((x << 13) >> 17);
        b == c
    })) by (bit_vector);
}

} // verus!
