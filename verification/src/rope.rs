//! Rotary position embedding.
use vstd::prelude::*;

use crate::arith::{
    is_cos, is_difference, is_power, is_product, is_quotient, is_sin, is_sum, of_bits, of_usize,
    Arith, MINUS_TWO_BITS,
};
use crate::tensor::{lemma_product_step, product, row_major, Tensor};

verus! {

// ---- Places in a tensor ----

/// The place of an element by its first three coordinates.
pub open spec fn at3(strides: Seq<usize>, a: int, b: int, c: int) -> int {
    a * strides[0] + b * strides[1] + c * strides[2]
}

/// The leading strides of a row-major tensor of three or more dimensions.
pub(crate) proof fn lemma_leading_strides(shape: Seq<usize>, strides: Seq<usize>)
    requires
        row_major(shape, strides),
        shape.len() >= 3,
    ensures
        strides[1] == shape[2] * strides[2],
        strides[0] == shape[1] * strides[1],
{
    lemma_product_step(shape, 1);
    lemma_product_step(shape, 2);
    assert(strides[0] as nat == product(shape.skip(1)));
    assert(strides[1] as nat == product(shape.skip(2)));
    assert(strides[2] as nat == product(shape.skip(3)));
}

/// Elements of a row-major tensor lie in the order of their coordinates.
pub(crate) proof fn lemma_at3_order(
    strides: Seq<usize>,
    n1: int,
    n2: int,
    a: int,
    b: int,
    c: int,
    x: int,
    y: int,
    z: int,
)
    requires
        strides.len() >= 3,
        strides[1] == n2 * strides[2],
        strides[0] == n1 * strides[1],
        strides[2] > 0,
        0 <= b < n1,
        0 <= c < n2,
        0 <= y < n1,
        0 <= z < n2,
        a < x || (a == x && (b < y || (b == y && c < z))),
    ensures
        at3(strides, a, b, c) < at3(strides, x, y, z),
{
    let s0 = strides[0] as int;
    let s1 = strides[1] as int;
    let s2 = strides[2] as int;
    assert(c * s2 + s2 <= s1 && 0 <= z * s2) by (nonlinear_arith)
        requires
            s1 == n2 * s2,
            0 <= c < n2,
            0 <= z,
            s2 > 0,
    ;
    assert(b * s1 + s1 <= s0 && 0 <= y * s1) by (nonlinear_arith)
        requires
            s0 == n1 * s1,
            0 <= b < n1,
            0 <= y,
            s1 >= 0,
    ;
    if a < x {
        assert(a * s0 + s0 <= x * s0) by (nonlinear_arith)
            requires
                a < x,
                s0 >= 0,
        ;
    } else if b < y {
        assert(b * s1 + s1 <= y * s1) by (nonlinear_arith)
            requires
                b < y,
                s1 >= 0,
        ;
    } else {
        assert(c * s2 + s2 <= z * s2) by (nonlinear_arith)
            requires
                c < z,
                s2 > 0,
        ;
    }
}

pub(crate) proof fn lemma_at3_nonnegative(strides: Seq<usize>, a: int, b: int, c: int)
    requires
        strides.len() >= 3,
        0 <= a,
        0 <= b,
        0 <= c,
    ensures
        0 <= at3(strides, a, b, c),
{
    let s0 = strides[0] as int;
    let s1 = strides[1] as int;
    let s2 = strides[2] as int;
    assert(0 <= a * s0 && 0 <= b * s1 && 0 <= c * s2) by (nonlinear_arith)
        requires
            0 <= a,
            0 <= b,
            0 <= c,
            0 <= s0,
            0 <= s1,
            0 <= s2,
    ;
}

/// Two elements have one place.
pub open spec fn share_place(
    strides: Seq<usize>,
    a: int,
    b: int,
    c: int,
    x: int,
    y: int,
    z: int,
) -> bool {
    at3(strides, a, b, c) == at3(strides, x, y, z)
}

/// No two elements with coordinates below these have one place.
pub open spec fn places_differ(strides: Seq<usize>, n0: int, n1: int, n2: int) -> bool {
    forall|a: int, b: int, c: int, x: int, y: int, z: int|
        0 <= a < n0 && 0 <= b < n1 && 0 <= c < n2 && 0 <= x < n0 && 0 <= y < n1 && 0 <= z < n2
            && #[trigger] share_place(strides, a, b, c, x, y, z) ==> a == x && b == y && c == z
}

/// No two elements of a row-major tensor have one place.
pub(crate) proof fn lemma_row_major_differ(shape: Seq<usize>, strides: Seq<usize>)
    requires
        row_major(shape, strides),
        shape.len() >= 3,
        strides[2] > 0,
    ensures
        places_differ(strides, shape[0] as int, shape[1] as int, shape[2] as int),
        places_differ(strides, shape[0] as int, shape[1] as int, shape[2] as int / 2 * 2),
{
    lemma_leading_strides(shape, strides);
    let n1 = shape[1] as int;
    let n2 = shape[2] as int;
    assert forall|a: int, b: int, c: int, x: int, y: int, z: int|
        0 <= a && 0 <= b < n1 && 0 <= c < n2 && 0 <= x && 0 <= y < n1 && 0 <= z < n2
            && #[trigger] share_place(strides, a, b, c, x, y, z) implies a == x && b == y && c
        == z by {
        if a < x || (a == x && (b < y || (b == y && c < z))) {
            lemma_at3_order(strides, n1, n2, a, b, c, x, y, z);
        } else if a != x || b != y || c != z {
            lemma_at3_order(strides, n1, n2, x, y, z, a, b, c);
        }
    }
}

// ---- The rotation ----

/// The intermediate numbers of the angle.
pub open spec fn angle_steps<T: Copy, A: Arith<T>>(
    ar: &A,
    rope_theta: T,
    dim: usize,
    d: usize,
    position: usize,
    minus_two: T,
    pair: T,
    above: T,
    below: T,
    power: T,
    speed: T,
    turns: T,
    r: T,
) -> bool {
    &&& of_bits(ar, MINUS_TWO_BITS, minus_two)
    &&& of_usize(ar, d, pair)
    &&& is_product(ar, minus_two, pair, above)
    &&& of_usize(ar, dim, below)
    &&& is_quotient(ar, above, below, power)
    &&& is_power(ar, rope_theta, power, speed)
    &&& of_usize(ar, position, turns)
    &&& is_product(ar, turns, speed, r)
}

/// `r` is `position * rope_theta ^ (-2 * d / dim)`.
pub open spec fn is_angle<T: Copy, A: Arith<T>>(
    ar: &A,
    rope_theta: T,
    dim: usize,
    d: usize,
    position: usize,
    r: T,
) -> bool {
    exists|minus_two: T, pair: T, above: T, below: T, power: T, speed: T, turns: T|
        angle_steps(
            ar,
            rope_theta,
            dim,
            d,
            position,
            minus_two,
            pair,
            above,
            below,
            power,
            speed,
            turns,
            r,
        )
}

/// The intermediate numbers of a rotation.
pub open spec fn rotation_steps<T: Copy, A: Arith<T>>(
    ar: &A,
    angle: T,
    x1: T,
    x2: T,
    c: T,
    s: T,
    x1c: T,
    x2s: T,
    x1s: T,
    x2c: T,
    y1: T,
    y2: T,
) -> bool {
    &&& is_cos(ar, angle, c)
    &&& is_sin(ar, angle, s)
    &&& is_product(ar, x1, c, x1c)
    &&& is_product(ar, x2, s, x2s)
    &&& is_difference(ar, x1c, x2s, y1)
    &&& is_product(ar, x1, s, x1s)
    &&& is_product(ar, x2, c, x2c)
    &&& is_sum(ar, x1s, x2c, y2)
}

/// `(y1, y2)` is `(x1, x2)` turned by the angle.
pub open spec fn is_rotation<T: Copy, A: Arith<T>>(
    ar: &A,
    angle: T,
    x1: T,
    x2: T,
    y1: T,
    y2: T,
) -> bool {
    exists|c: T, s: T, x1c: T, x2s: T, x1s: T, x2c: T|
        rotation_steps(ar, angle, x1, x2, c, s, x1c, x2s, x1s, x2c, y1, y2)
}

/// `(y1, y2)` is pair `d` of a head of `dim` elements turned for a position.
pub open spec fn is_roped<T: Copy, A: Arith<T>>(
    ar: &A,
    rope_theta: T,
    dim: usize,
    d: usize,
    position: usize,
    x1: T,
    x2: T,
    y1: T,
    y2: T,
) -> bool {
    exists|angle: T|
        is_angle(ar, rope_theta, dim, d, position, angle) && #[trigger] is_rotation(
            ar,
            angle,
            x1,
            x2,
            y1,
            y2,
        )
}

fn rope_pair<T: Copy, A: Arith<T>>(
    ar: &A,
    rope_theta: T,
    dim: usize,
    d: usize,
    position: usize,
    x1: T,
    x2: T,
) -> (y: (T, T))
    ensures
        is_roped(ar, rope_theta, dim, d, position, x1, x2, y.0, y.1),
{
    let minus_two = ar.from_bits(MINUS_TWO_BITS);
    let pair = ar.from_usize(d);
    let above = ar.mul(minus_two, pair);
    let below = ar.from_usize(dim);
    let power = ar.div(above, below);
    let speed = ar.powf(rope_theta, power);
    let turns = ar.from_usize(position);
    let angle = ar.mul(turns, speed);
    assert(angle_steps(
        ar,
        rope_theta,
        dim,
        d,
        position,
        minus_two,
        pair,
        above,
        below,
        power,
        speed,
        turns,
        angle,
    ));
    let c = ar.cos(angle);
    let s = ar.sin(angle);
    let x1c = ar.mul(x1, c);
    let x2s = ar.mul(x2, s);
    let y1 = ar.sub(x1c, x2s);
    let x1s = ar.mul(x1, s);
    let x2c = ar.mul(x2, c);
    let y2 = ar.add(x1s, x2c);
    assert(rotation_steps(ar, angle, x1, x2, c, s, x1c, x2s, x1s, x2c, y1, y2));
    assert(is_rotation(ar, angle, x1, x2, y1, y2));
    (y1, y2)
}

/// Pair `d` of the head at `(pos, h)` is turned from what `before` holds to what `after` holds.
pub open spec fn is_roped_at<T: Copy, A: Arith<T>>(
    ar: &A,
    rope_theta: T,
    dim: usize,
    current_pos: int,
    strides: Seq<usize>,
    before: Seq<T>,
    after: Seq<T>,
    pos: int,
    h: int,
    d: int,
) -> bool {
    let first = at3(strides, pos, h, d);
    let second = at3(strides, pos, h, d + dim as int / 2);
    is_roped(
        ar,
        rope_theta,
        dim,
        d as usize,
        (pos + current_pos) as usize,
        before[first],
        before[second],
        after[first],
        after[second],
    )
}

/// The pairs of the heads that come before `(pos, h, d)` are turned, and nothing else is changed.
spec fn roped_until<T: Copy, A: Arith<T>>(
    ar: &A,
    rope_theta: T,
    shape: Seq<usize>,
    current_pos: int,
    strides: Seq<usize>,
    before: Seq<T>,
    after: Seq<T>,
    pos: int,
    h: int,
    d: int,
) -> bool {
    let half = shape[2] as int / 2;
    &&& after.len() == before.len()
    &&& forall|a: int, b: int, c: int|
        #![trigger is_roped_at(ar, rope_theta, shape[2], current_pos, strides, before, after, a, b, c)]
        0 <= a && 0 <= b < shape[1] && 0 <= c < half && comes_before(a, b, c, pos, h, d)
            ==> is_roped_at(
            ar,
            rope_theta,
            shape[2],
            current_pos,
            strides,
            before,
            after,
            a,
            b,
            c,
        )
    &&& forall|p: int|
        0 <= p < before.len() && apart(shape, strides, p, pos, h, d) ==> #[trigger] after[p]
            == before[p]
}

/// The order in which the pairs are turned.
spec fn comes_before(a: int, b: int, c: int, pos: int, h: int, d: int) -> bool {
    a < pos || (a == pos && (b < h || (b == h && c < d)))
}

/// `p` belongs to none of the pairs that come before `(pos, h, d)`.
spec fn apart(shape: Seq<usize>, strides: Seq<usize>, p: int, pos: int, h: int, d: int) -> bool {
    let half = shape[2] as int / 2;
    forall|a: int, b: int, c: int|
        #![trigger comes_before(a, b, c, pos, h, d)]
        0 <= a && 0 <= b < shape[1] && 0 <= c < half && comes_before(a, b, c, pos, h, d) ==> p
            != at3(strides, a, b, c) && p != at3(strides, a, b, c + half)
}

/// Every element that the rotation reads lies within `len` places, each at one of its own.
pub open spec fn can_turn(shape: Seq<usize>, strides: Seq<usize>, len: int) -> bool {
    let whole = shape[2] as int / 2 * 2;
    &&& shape.len() >= 3
    &&& strides.len() >= 3
    &&& forall|a: int, b: int, c: int|
        0 <= a < shape[0] && 0 <= b < shape[1] && 0 <= c < whole ==> #[trigger] at3(
            strides,
            a,
            b,
            c,
        ) < len
    &&& places_differ(strides, shape[0] as int, shape[1] as int, whole)
}

/// Every element that the rotation reads lies in the tensor, each at a place of its own.
pub open spec fn can_rope<T>(t: Tensor<T>) -> bool {
    can_turn(t.shape@, t.strides@, t.data@.len() as int)
}

proof fn lemma_rope_step<T: Copy, A: Arith<T>>(
    ar: &A,
    rope_theta: T,
    shape: Seq<usize>,
    current_pos: int,
    strides: Seq<usize>,
    before: Seq<T>,
    middle: Seq<T>,
    after: Seq<T>,
    pos: int,
    h: int,
    d: int,
    y1: T,
    y2: T,
)
    requires
        can_turn(shape, strides, before.len() as int),
        0 <= pos < shape[0],
        0 <= h < shape[1],
        0 <= d < shape[2] as int / 2,
        roped_until(
            ar,
            rope_theta,
            shape,
            current_pos,
            strides,
            before,
            middle,
            pos,
            h,
            d,
        ),
        0 <= at3(strides, pos, h, d) < before.len(),
        0 <= at3(strides, pos, h, d + shape[2] as int / 2) < before.len(),
        after == middle.update(at3(strides, pos, h, d), y1).update(
            at3(strides, pos, h, d + shape[2] as int / 2),
            y2,
        ),
        is_roped(
            ar,
            rope_theta,
            shape[2],
            d as usize,
            (pos + current_pos) as usize,
            middle[at3(strides, pos, h, d)],
            middle[at3(strides, pos, h, d + shape[2] as int / 2)],
            y1,
            y2,
        ),
    ensures
        roped_until(
            ar,
            rope_theta,
            shape,
            current_pos,
            strides,
            before,
            after,
            pos,
            h,
            d + 1,
        ),
{
    let n1 = shape[1] as int;
    let n2 = shape[2] as int;
    let half = n2 / 2;
    let i1 = at3(strides, pos, h, d);
    let i2 = at3(strides, pos, h, d + half);
    assert forall|a: int, b: int, c: int|
        0 <= a && 0 <= b < n1 && 0 <= c < half && comes_before(a, b, c, pos, h, d) implies {
        &&& at3(strides, a, b, c) != i1
        &&& at3(strides, a, b, c) != i2
        &&& at3(strides, a, b, c + half) != i1
        &&& at3(strides, a, b, c + half) != i2
        &&& 0 <= at3(strides, a, b, c) < before.len()
        &&& 0 <= at3(strides, a, b, c + half) < before.len()
    } by {
        assert(!share_place(strides, a, b, c, pos, h, d));
        assert(!share_place(strides, a, b, c, pos, h, d + half));
        assert(!share_place(strides, a, b, c + half, pos, h, d));
        assert(!share_place(strides, a, b, c + half, pos, h, d + half));
        lemma_at3_nonnegative(strides, a, b, c);
        lemma_at3_nonnegative(strides, a, b, c + half);
    }
    assert(!share_place(strides, pos, h, d, pos, h, d + half));
    assert(middle[i1] == before[i1]);
    assert(middle[i2] == before[i2]);
    assert forall|a: int, b: int, c: int|
        #![trigger is_roped_at(ar, rope_theta, shape[2], current_pos, strides, before, after, a, b, c)]
        0 <= a && 0 <= b < n1 && 0 <= c < half && comes_before(a, b, c, pos, h, d + 1)
            implies is_roped_at(
        ar,
        rope_theta,
        shape[2],
        current_pos,
        strides,
        before,
        after,
        a,
        b,
        c,
    ) by {
        if comes_before(a, b, c, pos, h, d) {
            assert(is_roped_at(
                ar,
                rope_theta,
                shape[2],
                current_pos,
                strides,
                before,
                middle,
                a,
                b,
                c,
            ));
            assert(after[at3(strides, a, b, c)] == middle[at3(strides, a, b, c)]);
            assert(after[at3(strides, a, b, c + half)] == middle[at3(strides, a, b, c + half)]);
        } else {
            assert(a == pos && b == h && c == d);
        }
    }
    assert forall|p: int|
        0 <= p < before.len() && apart(shape, strides, p, pos, h, d + 1) implies #[trigger] after[p]
        == before[p] by {
        assert(comes_before(pos, h, d, pos, h, d + 1));
        assert forall|a: int, b: int, c: int|
            #![trigger comes_before(a, b, c, pos, h, d)]
            0 <= a && 0 <= b < n1 && 0 <= c < half && comes_before(a, b, c, pos, h, d) implies p
            != at3(strides, a, b, c) && p != at3(strides, a, b, c + half) by {
            assert(comes_before(a, b, c, pos, h, d + 1));
        }
        assert(apart(shape, strides, p, pos, h, d));
        assert(middle[p] == before[p]);
    }
}

/// Two points of the order with the same pairs before them.
proof fn lemma_rope_same<T: Copy, A: Arith<T>>(
    ar: &A,
    rope_theta: T,
    shape: Seq<usize>,
    current_pos: int,
    strides: Seq<usize>,
    before: Seq<T>,
    after: Seq<T>,
    from: (int, int, int),
    to: (int, int, int),
)
    requires
        roped_until(
            ar,
            rope_theta,
            shape,
            current_pos,
            strides,
            before,
            after,
            from.0,
            from.1,
            from.2,
        ),
        forall|a: int, b: int, c: int|
            0 <= a && 0 <= b < shape[1] && 0 <= c < shape[2] as int / 2 ==> (comes_before(
                a,
                b,
                c,
                from.0,
                from.1,
                from.2,
            ) <==> #[trigger] comes_before(a, b, c, to.0, to.1, to.2)),
    ensures
        roped_until(
            ar,
            rope_theta,
            shape,
            current_pos,
            strides,
            before,
            after,
            to.0,
            to.1,
            to.2,
        ),
{
    let half = shape[2] as int / 2;
    assert forall|p: int|
        0 <= p < before.len() && apart(shape, strides, p, to.0, to.1, to.2) implies #[trigger] after[p]
        == before[p] by {
        assert forall|a: int, b: int, c: int|
            #![trigger comes_before(a, b, c, from.0, from.1, from.2)]
            0 <= a && 0 <= b < shape[1] && 0 <= c < half && comes_before(
                a,
                b,
                c,
                from.0,
                from.1,
                from.2,
            ) implies p != at3(strides, a, b, c) && p != at3(strides, a, b, c + half) by {
            assert(comes_before(a, b, c, to.0, to.1, to.2));
        }
        assert(apart(shape, strides, p, from.0, from.1, from.2));
    }
    assert forall|a: int, b: int, c: int|
        #![trigger is_roped_at(ar, rope_theta, shape[2], current_pos, strides, before, after, a, b, c)]
        0 <= a && 0 <= b < shape[1] && 0 <= c < half && comes_before(a, b, c, to.0, to.1, to.2)
            implies is_roped_at(
        ar,
        rope_theta,
        shape[2],
        current_pos,
        strides,
        before,
        after,
        a,
        b,
        c,
    ) by {
        assert(comes_before(a, b, c, from.0, from.1, from.2));
    }
}

/// `after` is `before` with the pairs of every head turned by the angles of its position.
pub open spec fn is_rope<T: Copy, A: Arith<T>>(
    ar: &A,
    rope_theta: T,
    current_pos: usize,
    before: Tensor<T>,
    after: Tensor<T>,
) -> bool {
    &&& after.shape@ == before.shape@
    &&& after.strides@ == before.strides@
    &&& after.data@.len() == before.data@.len()
    &&& {
        let shape = before.shape@;
        let strides = before.strides@;
        let half = shape[2] as int / 2;
        &&& forall|pos: int, h: int, d: int|
            0 <= pos < shape[0] && 0 <= h < shape[1] && 0 <= d < half
                ==> #[trigger] is_roped_at(
                ar,
                rope_theta,
                shape[2],
                current_pos as int,
                strides,
                before.data@,
                after.data@,
                pos,
                h,
                d,
            )
        &&& forall|p: int|
            0 <= p < before.data@.len() && (forall|pos: int, h: int, d: int|
                0 <= pos < shape[0] && 0 <= h < shape[1] && 0 <= d < half ==> p
                    != #[trigger] at3(strides, pos, h, d) && p != at3(
                    strides,
                    pos,
                    h,
                    d + half,
                )) ==> #[trigger] after.data@[p] == before.data@[p]
    }
}

/// When all pairs are turned, the rotation is done.
proof fn lemma_rope_done<T: Copy, A: Arith<T>>(
    ar: &A,
    rope_theta: T,
    current_pos: usize,
    before: Tensor<T>,
    after: Tensor<T>,
)
    requires
        after.shape@ == before.shape@,
        after.strides@ == before.strides@,
        roped_until(
            ar,
            rope_theta,
            before.shape@,
            current_pos as int,
            before.strides@,
            before.data@,
            after.data@,
            before.shape@[0] as int,
            0,
            0,
        ),
    ensures
        is_rope(ar, rope_theta, current_pos, before, after),
{
    let shape = before.shape@;
    let strides = before.strides@;
    let n0 = shape[0] as int;
    let half = shape[2] as int / 2;
    assert forall|p: int|
        0 <= p < before.data@.len() && (forall|a: int, b: int, c: int|
            0 <= a < n0 && 0 <= b < shape[1] && 0 <= c < half ==> p != #[trigger] at3(
                strides,
                a,
                b,
                c,
            ) && p != at3(strides, a, b, c + half)) implies #[trigger] after.data@[p]
        == before.data@[p] by {
        assert forall|a: int, b: int, c: int|
            #![trigger comes_before(a, b, c, n0, 0, 0)]
            0 <= a && 0 <= b < shape[1] && 0 <= c < half && comes_before(
                a,
                b,
                c,
                n0,
                0,
                0,
            ) implies p != at3(strides, a, b, c) && p != at3(strides, a, b, c + half) by {
            assert(p != at3(strides, a, b, c));
        }
        assert(apart(shape, strides, p, n0, 0, 0));
    }
    assert forall|a: int, b: int, c: int|
        0 <= a < n0 && 0 <= b < shape[1] && 0 <= c < half implies #[trigger] is_roped_at(
        ar,
        rope_theta,
        shape[2],
        current_pos as int,
        strides,
        before.data@,
        after.data@,
        a,
        b,
        c,
    ) by {
        assert(comes_before(a, b, c, n0, 0, 0));
    }
}

/// Turns the pairs of every head by the angles of its position, counted from `current_pos`: of a
/// head of `dim` elements, element `d` goes with the one half a head behind it.
pub fn apply_rope<T: Copy, A: Arith<T>>(
    ar: &A,
    tensor: &mut Tensor<T>,
    rope_theta: T,
    current_pos: usize,
)
    requires
        can_rope(*old(tensor)),
        old(tensor).shape@[0] + current_pos <= usize::MAX + 1,
    ensures
        is_rope(ar, rope_theta, current_pos, *old(tensor), *final(tensor)),
{
    let n0 = tensor.shape[0];
    let n1 = tensor.shape[1];
    let n2 = tensor.shape[2];
    let half = n2 / 2;
    let s0 = tensor.strides[0];
    let s1 = tensor.strides[1];
    let s2 = tensor.strides[2];
    let ghost shape = tensor.shape@;
    let ghost strides = tensor.strides@;
    let ghost before = tensor.data@;
    let mut pos: usize = 0;
    while pos < n0
        invariant
            pos <= n0,
            n0 == shape[0],
            n1 == shape[1],
            n2 == shape[2],
            half == n2 / 2,
            s0 == strides[0],
            s1 == strides[1],
            s2 == strides[2],
            n0 + current_pos <= usize::MAX + 1,
            tensor.shape@ == shape,
            tensor.strides@ == strides,
            can_turn(shape, strides, before.len() as int),
            shape == old(tensor).shape@,
            strides == old(tensor).strides@,
            before == old(tensor).data@,
            roped_until(
                ar,
                rope_theta,
                shape,
                current_pos as int,
                strides,
                before,
                tensor.data@,
                pos as int,
                0,
                0,
            ),
        decreases n0 - pos,
    {
        let mut h: usize = 0;
        while h < n1
            invariant
                pos < n0,
                h <= n1,
                n0 == shape[0],
                n1 == shape[1],
                n2 == shape[2],
                half == n2 / 2,
                s0 == strides[0],
                s1 == strides[1],
                s2 == strides[2],
                n0 + current_pos <= usize::MAX + 1,
                tensor.shape@ == shape,
                tensor.strides@ == strides,
                can_turn(shape, strides, before.len() as int),
                shape == old(tensor).shape@,
                strides == old(tensor).strides@,
                before == old(tensor).data@,
                roped_until(
                    ar,
                    rope_theta,
                    shape,
                    current_pos as int,
                    strides,
                    before,
                    tensor.data@,
                    pos as int,
                    h as int,
                    0,
                ),
            decreases n1 - h,
        {
            let mut d: usize = 0;
            while d < half
                invariant
                    pos < n0,
                    h < n1,
                    d <= half,
                    n0 == shape[0],
                    n1 == shape[1],
                    n2 == shape[2],
                    half == n2 / 2,
                    s0 == strides[0],
                    s1 == strides[1],
                    s2 == strides[2],
                    n0 + current_pos <= usize::MAX + 1,
                    tensor.shape@ == shape,
                    tensor.strides@ == strides,
                    can_turn(shape, strides, before.len() as int),
                    shape == old(tensor).shape@,
                    strides == old(tensor).strides@,
                    before == old(tensor).data@,
                    roped_until(
                        ar,
                        rope_theta,
                        shape,
                        current_pos as int,
                        strides,
                        before,
                        tensor.data@,
                        pos as int,
                        h as int,
                        d as int,
                    ),
                decreases half - d,
            {
                proof {
                    let i1 = at3(strides, pos as int, h as int, d as int);
                    let i2 = at3(strides, pos as int, h as int, d + half);
                    assert(i1 < before.len());
                    assert(i2 < before.len());
                    assert(0 <= pos * s0 && 0 <= h * s1 && 0 <= d * s2 && 0 <= (d + half) * s2)
                        by (nonlinear_arith);
                    assert(tensor.data.len() == before.len());
                }
                let idx1 = pos * s0 + h * s1 + d * s2;
                let idx2 = pos * s0 + h * s1 + (d + half) * s2;
                let ghost middle = tensor.data@;
                let x1 = tensor.data[idx1];
                let x2 = tensor.data[idx2];
                let (y1, y2) = rope_pair(ar, rope_theta, n2, d, pos + current_pos, x1, x2);
                tensor.data[idx1] = y1;
                tensor.data[idx2] = y2;
                proof {
                    lemma_rope_step(
                        ar,
                        rope_theta,
                        shape,
                        current_pos as int,
                        strides,
                        before,
                        middle,
                        tensor.data@,
                        pos as int,
                        h as int,
                        d as int,
                        y1,
                        y2,
                    );
                }
                d += 1;
            }
            proof {
                lemma_rope_same(
                    ar,
                    rope_theta,
                    shape,
                    current_pos as int,
                    strides,
                    before,
                    tensor.data@,
                    (pos as int, h as int, half as int),
                    (pos as int, h + 1, 0),
                );
            }
            h += 1;
        }
        proof {
            lemma_rope_same(
                ar,
                rope_theta,
                shape,
                current_pos as int,
                strides,
                before,
                tensor.data@,
                (pos as int, n1 as int, 0),
                (pos + 1, 0, 0),
            );
        }
        pos += 1;
    }
    proof {
        lemma_rope_done(ar, rope_theta, current_pos, *old(tensor), *tensor);
    }
}

} // verus!
