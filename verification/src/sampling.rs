//! Choosing the next token: among the most likely ones, which together reach a certain
//! probability, one is drawn by a random number.
use std::time::Duration;
use vstd::prelude::*;

use crate::arith::{
    bits_of, is_difference, is_exp, is_max, is_quotient, is_sum, of_bits, of_u32, says_le,
    says_lt, Arith, NEG_INFINITY_BITS, ZERO_BITS,
};
use crate::time::{epoch_time, is_epoch_time, nanos, whole_nanos};

verus! {

/// The bits of the temperature, 0.7.
pub const TEMPERATURE_BITS: u32 = 0x3f33_3333;

/// The bits of the probability that the tokens reach among which one is drawn, 0.9.
pub const P_BITS: u32 = 0x3f66_6666;

// ---- The random number ----

/// The bits of `x`, stirred.
pub open spec fn stirred(x: u32) -> u32 {
    let a = x ^ (x << 13);
    let b = a ^ (a >> 17);
    b ^ (b << 5)
}

/// `r` is the random number that comes from a seed: between zero and one.
pub open spec fn is_random<T: Copy, A: Arith<T>>(ar: &A, seed: u32, r: T) -> bool {
    exists|n: T, most: T|
        of_u32(ar, stirred(seed), n) && of_u32(ar, u32::MAX, most) && #[trigger] is_quotient(
            ar,
            n,
            most,
            r,
        )
}

/// The seed that a time gives: the low 32 bits of its nanoseconds.
pub open spec fn seed_of(since: Duration) -> u32 {
    (nanos(since) % 0x1_0000_0000) as u32
}

/// `r` is the random number for the time since the epoch, or why there is none.
pub open spec fn is_random_at<T: Copy, A: Arith<T>>(
    ar: &A,
    since: Option<Duration>,
    r: Result<T, String>,
) -> bool {
    match since {
        Some(d) => r matches Ok(x) && is_random(ar, seed_of(d), x),
        None => r matches Err(e) && e@ == "cannot get current time"@,
    }
}

/// Different seeds give different bits.
pub proof fn law_stirring_keeps_apart(x: u32, y: u32)
    requires
        x != y,
    ensures
        stirred(x) != stirred(y),
{
    let a = x ^ (x << 13);
    let c = y ^ (y << 13);
    assert(a != c) by (bit_vector)
        requires
            x != y,
            a == x ^ (x << 13),
            c == y ^ (y << 13),
    ;
    let b = a ^ (a >> 17);
    let d = c ^ (c >> 17);
    assert(b != d) by (bit_vector)
        requires
            a != c,
            b == a ^ (a >> 17),
            d == c ^ (c >> 17),
    ;
    assert(b ^ (b << 5) != d ^ (d << 5)) by (bit_vector)
        requires
            b != d,
    ;
}

/// Zero, and only zero, gives zero.
pub proof fn law_stirring_keeps_zero(x: u32)
    ensures
        stirred(x) == 0 <==> x == 0,
{
    assert(stirred(0) == 0) by {
        assert(0u32 ^ (0u32 << 13) == 0 && 0u32 ^ (0u32 >> 17) == 0 && 0u32 ^ (0u32 << 5) == 0)
            by (bit_vector);
    }
    if x != 0 {
        law_stirring_keeps_apart(x, 0);
    }
}

/// The random number that comes from a seed.
pub fn random_from<T: Copy, A: Arith<T>>(ar: &A, seed: u32) -> (r: T)
    ensures
        is_random(ar, seed, r),
{
    let mut x = seed;
    x = x ^ (x << 13);
    x = x ^ (x >> 17);
    x = x ^ (x << 5);
    let n = ar.from_u32(x);
    let most = ar.from_u32(u32::MAX);
    let r = ar.div(n, most);
    assert(is_quotient(ar, n, most, r));
    r
}

/// The random number for the time since the epoch.
pub fn random_at<T: Copy, A: Arith<T>>(ar: &A, since: Option<Duration>) -> (r: Result<T, String>)
    ensures
        is_random_at(ar, since, r),
{
    match since {
        Some(time) => {
            let seed = (whole_nanos(&time) % 0x1_0000_0000) as u32;
            Ok(random_from(ar, seed))
        },
        None => Err("cannot get current time".to_owned()),
    }
}

/// A random number, whose seed is the time that the system clock shows.
pub fn random<T: Copy, A: Arith<T>>(ar: &A) -> (r: Result<T, String>)
    ensures
        exists|since: Option<Duration>| #[trigger]
            is_epoch_time(since) && is_random_at(ar, since, r),
{
    let since = epoch_time();
    let r = random_at(ar, since);
    assert(is_epoch_time(since) && is_random_at(ar, since, r));
    r
}

// ---- The probabilities ----

/// `ys` are the logits `xs` at the temperature.
pub open spec fn are_tempered<T: Copy, A: Arith<T>>(ar: &A, xs: Seq<T>, ys: Seq<T>) -> bool {
    &&& ys.len() == xs.len()
    &&& exists|t: T| #[trigger]
        of_bits(ar, TEMPERATURE_BITS, t) && forall|i: int|
            0 <= i < xs.len() ==> is_quotient(ar, xs[i], t, #[trigger] ys[i])
}

/// `r` is the greatest of the first `n` elements.
pub open spec fn is_greatest<T: Copy, A: Arith<T>>(ar: &A, xs: Seq<T>, n: int, r: T) -> bool
    decreases n,
{
    if n <= 0 {
        of_bits(ar, NEG_INFINITY_BITS, r)
    } else {
        exists|p: T| is_greatest(ar, xs, n - 1, p) && #[trigger] is_max(ar, p, xs[n - 1], r)
    }
}

/// `e` is the exponential of `x - m`, and `r` is `p + e`.
pub open spec fn is_exp_step<T: Copy, A: Arith<T>>(ar: &A, m: T, p: T, x: T, e: T, r: T) -> bool {
    exists|gap: T|
        is_difference(ar, x, m, gap) && #[trigger] is_exp(ar, gap, e) && is_sum(ar, p, e, r)
}

/// `r` is the sum of the exponentials `es` of the first `n` elements.
pub open spec fn is_exp_total<T: Copy, A: Arith<T>>(
    ar: &A,
    m: T,
    xs: Seq<T>,
    es: Seq<T>,
    n: int,
    r: T,
) -> bool
    decreases n,
{
    if n <= 0 {
        of_bits(ar, ZERO_BITS, r)
    } else {
        exists|p: T|
            is_exp_total(ar, m, xs, es, n - 1, p) && #[trigger] is_exp_step(
                ar,
                m,
                p,
                xs[n - 1],
                es[n - 1],
                r,
            )
    }
}

/// `ys` are the shares of the exponentials of `xs` in their sum.
pub open spec fn are_shares<T: Copy, A: Arith<T>>(ar: &A, xs: Seq<T>, ys: Seq<T>) -> bool {
    exists|m: T, es: Seq<T>, sum: T| #[trigger] share_steps(ar, xs, m, es, sum, ys)
}

/// The greatest element, the exponentials and their sum from which the shares come.
pub open spec fn share_steps<T: Copy, A: Arith<T>>(
    ar: &A,
    xs: Seq<T>,
    m: T,
    es: Seq<T>,
    sum: T,
    ys: Seq<T>,
) -> bool {
    &&& ys.len() == xs.len()
    &&& es.len() == xs.len()
    &&& is_greatest(ar, xs, xs.len() as int, m)
    &&& is_exp_total(ar, m, xs, es, xs.len() as int, sum)
    &&& forall|i: int| 0 <= i < xs.len() ==> is_quotient(ar, es[i], sum, #[trigger] ys[i])
}

fn temper<T: Copy, A: Arith<T>>(ar: &A, xs: &Vec<T>) -> (ys: Vec<T>)
    ensures
        are_tempered(ar, xs@, ys@),
{
    let t = ar.from_bits(TEMPERATURE_BITS);
    let mut ys: Vec<T> = Vec::new();
    let mut i: usize = 0;
    while i < xs.len()
        invariant
            i <= xs@.len(),
            ys@.len() == i,
            forall|k: int| 0 <= k < i ==> is_quotient(ar, xs@[k], t, #[trigger] ys@[k]),
        decreases xs@.len() - i,
    {
        ys.push(ar.div(xs[i], t));
        i += 1;
    }
    assert(of_bits(ar, TEMPERATURE_BITS, t));
    ys
}

fn shares<T: Copy, A: Arith<T>>(ar: &A, xs: &Vec<T>) -> (ys: Vec<T>)
    ensures
        are_shares(ar, xs@, ys@),
{
    let mut m = ar.from_bits(NEG_INFINITY_BITS);
    let mut i: usize = 0;
    while i < xs.len()
        invariant
            i <= xs@.len(),
            is_greatest(ar, xs@, i as int, m),
        decreases xs@.len() - i,
    {
        let next = ar.max(m, xs[i]);
        proof {
            let n = i + 1;
            assert(is_max(ar, m, xs@[n - 1], next));
            assert(is_greatest(ar, xs@, n, next));
        }
        m = next;
        i += 1;
    }
    let mut sum = ar.from_bits(ZERO_BITS);
    let mut es: Vec<T> = Vec::new();
    let mut i: usize = 0;
    while i < xs.len()
        invariant
            i <= xs@.len(),
            es@.len() == i,
            is_exp_total(ar, m, xs@, es@, i as int, sum),
        decreases xs@.len() - i,
    {
        let gap = ar.sub(xs[i], m);
        let e = ar.exp(gap);
        let next = ar.add(sum, e);
        let ghost before = es@;
        es.push(e);
        proof {
            let n = i + 1;
            lemma_exp_total_same(ar, m, xs@, before, es@, i as int, sum);
            assert(is_exp(ar, gap, e));
            assert(is_exp_step(ar, m, sum, xs@[n - 1], es@[n - 1], next));
            assert(is_exp_total(ar, m, xs@, es@, n, next));
        }
        sum = next;
        i += 1;
    }
    let mut ys: Vec<T> = Vec::new();
    let mut i: usize = 0;
    while i < es.len()
        invariant
            i <= es@.len(),
            ys@.len() == i,
            forall|k: int| 0 <= k < i ==> is_quotient(ar, es@[k], sum, #[trigger] ys@[k]),
        decreases es@.len() - i,
    {
        ys.push(ar.div(es[i], sum));
        i += 1;
    }
    assert(share_steps(ar, xs@, m, es@, sum, ys@));
    ys
}

proof fn lemma_exp_total_same<T: Copy, A: Arith<T>>(
    ar: &A,
    m: T,
    xs: Seq<T>,
    es: Seq<T>,
    fs: Seq<T>,
    n: int,
    r: T,
)
    requires
        is_exp_total(ar, m, xs, es, n, r),
        n <= es.len(),
        n <= fs.len(),
        forall|i: int| 0 <= i < n ==> es[i] == fs[i],
    ensures
        is_exp_total(ar, m, xs, fs, n, r),
    decreases n,
{
    if n > 0 {
        let p = choose|p: T|
            is_exp_total(ar, m, xs, es, n - 1, p) && #[trigger] is_exp_step(
                ar,
                m,
                p,
                xs[n - 1],
                es[n - 1],
                r,
            );
        lemma_exp_total_same(ar, m, xs, es, fs, n - 1, p);
        assert(is_exp_step(ar, m, p, xs[n - 1], fs[n - 1], r));
    }
}

// ---- The order ----

/// The place of a number in a descending order, by its bits: numbers without a sign before those
/// with one, the former by falling, the latter by rising magnitude.
pub open spec fn falling_key(bits: u32) -> u32 {
    if bits < 0x8000_0000 {
        (0x7fff_ffff - bits) as u32
    } else {
        bits
    }
}

/// The place of a number in the total order of numbers with a sign and a magnitude.
pub open spec fn total_rank(bits: u32) -> int {
    if bits < 0x8000_0000 {
        bits as int
    } else {
        0x7fff_ffff - bits
    }
}

/// The keys fall as the total order rises.
pub proof fn law_keys_fall(a: u32, b: u32)
    ensures
        falling_key(a) < falling_key(b) <==> total_rank(a) > total_rank(b),
        falling_key(a) == falling_key(b) <==> a == b,
{
}

/// `order` lists the places of `keys`, each once, by rising keys, and where keys are equal by
/// rising places.
pub open spec fn is_ranking(keys: Seq<u32>, order: Seq<usize>) -> bool {
    &&& order.len() == keys.len()
    &&& order.no_duplicates()
    &&& forall|i: int| 0 <= i < order.len() ==> (#[trigger] order[i]) < keys.len()
    &&& forall|i: int, j: int|
        0 <= i < j < order.len() ==> keys[(#[trigger] order[i]) as int] < keys[(
        #[trigger] order[j]) as int] || (keys[order[i] as int] == keys[order[j] as int] && order[i]
            < order[j])
}

/// `order` lists the places of `values`, the greatest value first.
pub open spec fn is_falling_order<T: Copy, A: Arith<T>>(
    ar: &A,
    values: Seq<T>,
    order: Seq<usize>,
) -> bool {
    exists|keys: Seq<u32>| #[trigger] are_keys(ar, values, keys) && is_ranking(keys, order)
}

/// `keys` are those of `values` in a descending order.
pub open spec fn are_keys<T: Copy, A: Arith<T>>(ar: &A, values: Seq<T>, keys: Seq<u32>) -> bool {
    &&& keys.len() == values.len()
    &&& forall|i: int| 0 <= i < keys.len() ==> is_key(ar, values[i], #[trigger] keys[i])
}

/// `key` is that of `value` in a descending order.
pub open spec fn is_key<T: Copy, A: Arith<T>>(ar: &A, value: T, key: u32) -> bool {
    exists|bits: u32| #[trigger] bits_of(ar, value, bits) && key == falling_key(bits)
}

/// `a` comes before `b`.
pub open spec fn pair_before(a: (u32, usize), b: (u32, usize)) -> bool {
    a.0 < b.0 || (a.0 == b.0 && a.1 < b.1)
}

/// The sort of the standard library, `slice::sort_unstable`, is trusted to keep the pairs, each as
/// often as it was there, and to bring them into the order in which pairs of integers are compared.
#[verifier::external_body]
fn sort_pairs(pairs: &mut Vec<(u32, usize)>)
    ensures
        final(pairs)@.to_multiset() == old(pairs)@.to_multiset(),
        forall|i: int, j: int|
            0 <= i < j < final(pairs)@.len() ==> pair_before(
                #[trigger] final(pairs)@[i],
                #[trigger] final(pairs)@[j],
            ) || final(pairs)@[i] == final(pairs)@[j],
{
    pairs.sort_unstable();
}

fn falling_order<T: Copy, A: Arith<T>>(ar: &A, values: &Vec<T>) -> (order: Vec<usize>)
    ensures
        is_falling_order(ar, values@, order@),
{
    let mut pairs: Vec<(u32, usize)> = Vec::new();
    let ghost mut keys: Seq<u32> = Seq::empty();
    let mut i: usize = 0;
    while i < values.len()
        invariant
            i <= values@.len(),
            keys.len() == i,
            pairs@.len() == i,
            forall|k: int| 0 <= k < i ==> is_key(ar, values@[k], #[trigger] keys[k]),
            forall|k: int| 0 <= k < i ==> #[trigger] pairs@[k] == (keys[k], k as usize),
        decreases values@.len() - i,
    {
        let bits = ar.to_bits(values[i]);
        assert(bits_of(ar, values@[i as int], bits));
        let key = if bits < 0x8000_0000 {
            0x7fff_ffff - bits
        } else {
            bits
        };
        pairs.push((key, i));
        proof {
            assert(is_key(ar, values@[i as int], key));
            keys = keys.push(key);
        }
        i += 1;
    }
    let ghost before = pairs@;
    sort_pairs(&mut pairs);
    proof {
        lemma_sorted_pairs(keys, before, pairs@);
    }
    let mut order: Vec<usize> = Vec::new();
    let mut i: usize = 0;
    while i < pairs.len()
        invariant
            i <= pairs@.len(),
            order@.len() == i,
            forall|k: int| 0 <= k < i ==> #[trigger] order@[k] == pairs@[k].1,
        decreases pairs@.len() - i,
    {
        order.push(pairs[i].1);
        i += 1;
    }
    assert(order@ =~= seconds(pairs@));
    assert(are_keys(ar, values@, keys));
    order
}

/// The second halves of pairs.
spec fn seconds(pairs: Seq<(u32, usize)>) -> Seq<usize> {
    Seq::new(pairs.len(), |i: int| pairs[i].1)
}

proof fn lemma_sorted_pairs(keys: Seq<u32>, before: Seq<(u32, usize)>, after: Seq<(u32, usize)>)
    requires
        before.len() == keys.len(),
        keys.len() <= usize::MAX,
        forall|k: int| 0 <= k < keys.len() ==> #[trigger] before[k] == (keys[k], k as usize),
        after.to_multiset() == before.to_multiset(),
        forall|i: int, j: int|
            0 <= i < j < after.len() ==> pair_before(#[trigger] after[i], #[trigger] after[j])
                || after[i] == after[j],
    ensures
        is_ranking(keys, seconds(after)),
{
    before.to_multiset_ensures();
    after.to_multiset_ensures();
    let order = seconds(after);
    assert forall|i: int| 0 <= i < after.len() implies (#[trigger] after[i]).1 < keys.len()
        && after[i].0 == keys[after[i].1 as int] by {
        assert(after.contains(after[i]));
        assert(after.to_multiset().count(after[i]) > 0);
        assert(before.contains(after[i]));
    }
    assert(before.no_duplicates());
    before.lemma_multiset_has_no_duplicates();
    after.lemma_multiset_has_no_duplicates_conv();
    assert forall|i: int, j: int| 0 <= i < order.len() && 0 <= j < order.len() && i != j implies
        order[i] != order[j] by {
        if order[i] == order[j] {
            assert(after[i] == after[j]);
        }
    }
    assert forall|i: int, j: int| 0 <= i < j < order.len() implies keys[(#[trigger] order[i]) as int]
        < keys[(#[trigger] order[j]) as int] || (keys[order[i] as int] == keys[order[j] as int]
        && order[i] < order[j]) by {
        assert(after[i] != after[j]);
        assert(pair_before(after[i], after[j]));
    }
}

// ---- The draw ----

/// `sums` are the sums of the first values: of none, of one, and so on.
pub open spec fn are_sums<T: Copy, A: Arith<T>>(ar: &A, values: Seq<T>, sums: Seq<T>) -> bool {
    &&& 1 <= sums.len() <= values.len() + 1
    &&& of_bits(ar, ZERO_BITS, sums[0])
    &&& forall|k: int|
        0 <= k < sums.len() - 1 ==> #[trigger] is_sum_at(ar, values, sums, k)
}

/// Sum `k + 1` is sum `k` plus value `k`.
pub open spec fn is_sum_at<T: Copy, A: Arith<T>>(
    ar: &A,
    values: Seq<T>,
    sums: Seq<T>,
    k: int,
) -> bool {
    is_sum(ar, sums[k], values[k], sums[k + 1])
}

/// The sums up to the last but one are below the probability.
pub open spec fn stay_below<T: Copy, A: Arith<T>>(ar: &A, p: T, sums: Seq<T>) -> bool {
    forall|k: int| 0 <= k < sums.len() - 1 ==> says_lt(ar, #[trigger] sums[k], p, true)
}

/// `sums` are those of the values that are needed to reach the probability.
pub open spec fn is_nucleus<T: Copy, A: Arith<T>>(
    ar: &A,
    values: Seq<T>,
    sums: Seq<T>,
) -> bool {
    exists|p: T| #[trigger]
        of_bits(ar, P_BITS, p) && are_sums(ar, values, sums) && stay_below(ar, p, sums) && says_lt(
            ar,
            sums.last(),
            p,
            false,
        )
}

/// All the values together do not reach the probability.
pub open spec fn is_short<T: Copy, A: Arith<T>>(ar: &A, values: Seq<T>) -> bool {
    exists|p: T, sums: Seq<T>| #[trigger] short_sums(ar, values, p, sums)
}

/// The probability and the sums by which the values do not reach it.
pub open spec fn short_sums<T: Copy, A: Arith<T>>(
    ar: &A,
    values: Seq<T>,
    p: T,
    sums: Seq<T>,
) -> bool {
    &&& of_bits(ar, P_BITS, p)
    &&& sums.len() == values.len() + 1
    &&& are_sums(ar, values, sums)
    &&& stay_below(ar, p, sums)
    &&& says_lt(ar, sums.last(), p, true)
}

/// `ys` are the values as shares of `whole`.
pub open spec fn are_parts<T: Copy, A: Arith<T>>(
    ar: &A,
    values: Seq<T>,
    whole: T,
    ys: Seq<T>,
) -> bool {
    &&& ys.len() <= values.len()
    &&& forall|i: int| 0 <= i < ys.len() ==> is_quotient(ar, values[i], whole, #[trigger] ys[i])
}

/// `r` is the place of the first value at which the sum of those before it reaches `random`, if
/// there is one.
pub open spec fn is_drawn<T: Copy, A: Arith<T>>(
    ar: &A,
    values: Seq<T>,
    random: T,
    r: Option<usize>,
) -> bool {
    exists|sums: Seq<T>| #[trigger] drawing_sums(ar, values, random, sums, r)
}

/// The sums by which a value is drawn.
pub open spec fn drawing_sums<T: Copy, A: Arith<T>>(
    ar: &A,
    values: Seq<T>,
    random: T,
    sums: Seq<T>,
    r: Option<usize>,
) -> bool {
    &&& are_sums(ar, values, sums)
    &&& match r {
        Some(i) => {
            &&& i < values.len()
            &&& sums.len() == i + 1
            &&& says_le(ar, random, sums[i as int], true)
            &&& forall|k: int| 0 <= k < i ==> says_le(ar, random, #[trigger] sums[k], false)
        },
        None => {
            &&& sums.len() == values.len() + 1
            &&& forall|k: int|
                0 <= k < values.len() ==> says_le(ar, random, #[trigger] sums[k], false)
        },
    }
}

/// The token that a draw stands for, and its place: the one that was drawn, but the first where
/// none was, or where it is token zero.
pub open spec fn drawn_place(order: Seq<usize>, drawn: Option<usize>) -> int {
    match drawn {
        Some(i) => if order[i as int] == 0 {
            0
        } else {
            i as int
        },
        None => 0,
    }
}

/// What the choice of a token goes through: the logits at the temperature, the probabilities, the
/// tokens by falling probability, these probabilities, the sums up to the needed probability, the
/// probabilities of the needed tokens among themselves, and the draw.
pub ghost struct Choice<T> {
    pub tempered: Seq<T>,
    pub probabilities: Seq<T>,
    pub order: Seq<usize>,
    pub falling: Seq<T>,
    pub sums: Seq<T>,
    pub parts: Seq<T>,
    pub drawn: Option<usize>,
}

/// The probabilities, and the order of the tokens.
pub open spec fn is_ordered_choice<T: Copy, A: Arith<T>>(
    ar: &A,
    logits: Seq<T>,
    c: Choice<T>,
) -> bool {
    &&& are_tempered(ar, logits, c.tempered)
    &&& are_shares(ar, c.tempered, c.probabilities)
    &&& is_falling_order(ar, c.probabilities, c.order)
    &&& c.falling.len() == c.order.len()
    &&& forall|i: int|
        0 <= i < c.order.len() ==> #[trigger] c.falling[i] == c.probabilities[c.order[i] as int]
}

/// The steps by which a token is chosen.
pub open spec fn is_choice<T: Copy, A: Arith<T>>(
    ar: &A,
    logits: Seq<T>,
    random: T,
    c: Choice<T>,
) -> bool {
    &&& is_ordered_choice(ar, logits, c)
    &&& is_nucleus(ar, c.falling, c.sums)
    &&& c.parts.len() == c.sums.len() - 1
    &&& are_parts(ar, c.falling, c.sums.last(), c.parts)
    &&& is_drawn(ar, c.parts, random, c.drawn)
}

/// `r` is the token that is chosen and its probability. There is none where the probabilities do
/// not reach what is needed, or nothing is needed.
pub open spec fn is_chosen<T: Copy, A: Arith<T>>(
    ar: &A,
    logits: Seq<T>,
    random: T,
    r: Option<(usize, T)>,
) -> bool {
    exists|c: Choice<T>| #[trigger] is_chosen_by(ar, logits, random, c, r)
}

/// `r` is the token that is chosen by the steps `c`.
pub open spec fn is_chosen_by<T: Copy, A: Arith<T>>(
    ar: &A,
    logits: Seq<T>,
    random: T,
    c: Choice<T>,
    r: Option<(usize, T)>,
) -> bool {
    match r {
        Some((token, score)) => {
            &&& is_choice(ar, logits, random, c)
            &&& c.parts.len() > 0
            &&& token == c.order[drawn_place(c.order, c.drawn)]
            &&& score == c.parts[drawn_place(c.order, c.drawn)]
        },
        None => {
            &&& is_ordered_choice(ar, logits, c)
            &&& is_short(ar, c.falling) || (is_nucleus(ar, c.falling, c.sums) && c.sums.len() == 1)
        },
    }
}

/// How many of the values are needed to reach the probability, and what they add up to.
fn nucleus<T: Copy, A: Arith<T>>(ar: &A, values: &Vec<T>) -> (r: (Option<(usize, T)>, Ghost<
    Seq<T>,
>))
    ensures
        match r.0 {
            Some((n, sum)) => is_nucleus(ar, values@, r.1@) && r.1@.len() == n + 1 && r.1@.last()
                == sum,
            None => is_short(ar, values@),
        },
{
    let p = ar.from_bits(P_BITS);
    let mut sum = ar.from_bits(ZERO_BITS);
    let mut n: usize = 0;
    let ghost mut sums: Seq<T> = seq![sum];
    loop
        invariant
            n <= values@.len(),
            of_bits(ar, P_BITS, p),
            sums.len() == n + 1,
            sums.last() == sum,
            are_sums(ar, values@, sums),
            stay_below(ar, p, sums),
        decreases values@.len() - n,
    {
        let below = ar.lt(sum, p);
        if !below {
            assert(says_lt(ar, sums.last(), p, false));
            assert(is_nucleus(ar, values@, sums));
            return (Some((n, sum)), Ghost(sums));
        }
        if n >= values.len() {
            assert(short_sums(ar, values@, p, sums));
            return (None, Ghost(sums));
        }
        let next = ar.add(sum, values[n]);
        proof {
            let more = sums.push(next);
            assert forall|k: int| 0 <= k < more.len() - 1 implies #[trigger] is_sum_at(
                ar,
                values@,
                more,
                k,
            ) by {
                if k < n {
                    assert(is_sum_at(ar, values@, sums, k));
                }
            }
            assert forall|k: int| 0 <= k < more.len() - 1 implies says_lt(
                ar,
                #[trigger] more[k],
                p,
                true,
            ) by {
                if k < n {
                    assert(more[k] == sums[k]);
                }
            }
            sums = more;
        }
        sum = next;
        n += 1;
    }
}

/// The place of the value that is drawn.
fn draw<T: Copy, A: Arith<T>>(ar: &A, values: &Vec<T>, random: T) -> (r: Option<usize>)
    ensures
        is_drawn(ar, values@, random, r),
{
    let mut sum = ar.from_bits(ZERO_BITS);
    let ghost mut sums: Seq<T> = seq![sum];
    let mut i: usize = 0;
    while i < values.len()
        invariant
            i <= values@.len(),
            sums.len() == i + 1,
            sums.last() == sum,
            are_sums(ar, values@, sums),
            forall|k: int| 0 <= k < i ==> says_le(ar, random, #[trigger] sums[k], false),
        decreases values@.len() - i,
    {
        let reached = ar.le(random, sum);
        assert(says_le(ar, random, sums[i as int], reached));
        if reached {
            assert(drawing_sums(ar, values@, random, sums, Some(i)));
            return Some(i);
        }
        let next = ar.add(sum, values[i]);
        proof {
            let more = sums.push(next);
            assert forall|k: int| 0 <= k < more.len() - 1 implies #[trigger] is_sum_at(
                ar,
                values@,
                more,
                k,
            ) by {
                if k < i {
                    assert(is_sum_at(ar, values@, sums, k));
                }
            }
            assert forall|k: int| 0 <= k < i + 1 implies says_le(
                ar,
                random,
                #[trigger] more[k],
                false,
            ) by {
                assert(more[k] == sums[k]);
            }
            sums = more;
        }
        sum = next;
        i += 1;
    }
    assert(drawing_sums(ar, values@, random, sums, None::<usize>));
    None
}

/// Chooses a token, given the logits and a random number between zero and one.
pub fn choose_token<T: Copy, A: Arith<T>>(ar: &A, logits: &Vec<T>, random: T) -> (r: Option<
    (usize, T),
>)
    ensures
        is_chosen(ar, logits@, random, r),
        r matches Some((token, _)) ==> token < logits@.len(),
{
    let tempered = temper(ar, logits);
    let probabilities = shares(ar, &tempered);
    let order = falling_order(ar, &probabilities);
    let mut falling: Vec<T> = Vec::new();
    let mut i: usize = 0;
    while i < order.len()
        invariant
            i <= order@.len(),
            falling@.len() == i,
            order@.len() == probabilities@.len(),
            forall|k: int| 0 <= k < order@.len() ==> (#[trigger] order@[k]) < probabilities@.len(),
            forall|k: int|
                0 <= k < i ==> #[trigger] falling@[k] == probabilities@[order@[k] as int],
        decreases order@.len() - i,
    {
        falling.push(probabilities[order[i]]);
        i += 1;
    }
    let (found, Ghost(sums)) = nucleus(ar, &falling);
    let (n, whole) = match found {
        Some(found) => found,
        None => {
            proof {
                let c = Choice {
                    tempered: tempered@,
                    probabilities: probabilities@,
                    order: order@,
                    falling: falling@,
                    sums,
                    parts: Seq::empty(),
                    drawn: None,
                };
                assert(is_chosen_by(ar, logits@, random, c, None::<(usize, T)>));
            }
            return None;
        },
    };
    let mut parts: Vec<T> = Vec::new();
    let mut i: usize = 0;
    while i < n
        invariant
            i <= n <= falling@.len(),
            parts@.len() == i,
            are_parts(ar, falling@, whole, parts@),
        decreases n - i,
    {
        parts.push(ar.div(falling[i], whole));
        i += 1;
    }
    let drawn = draw(ar, &parts, random);
    let ghost c = Choice {
        tempered: tempered@,
        probabilities: probabilities@,
        order: order@,
        falling: falling@,
        sums,
        parts: parts@,
        drawn,
    };
    if n == 0 {
        assert(is_chosen_by(ar, logits@, random, c, None::<(usize, T)>));
        return None;
    }
    let place = match drawn {
        Some(i) => if order[i] == 0 {
            0
        } else {
            i
        },
        None => 0,
    };
    let r = Some((order[place], parts[place]));
    assert(is_chosen_by(ar, logits@, random, c, r));
    r
}

} // verus!
