//! What the element-wise kernels compute over the reals.
use vstd::prelude::*;

use crate::arith::Arith;
use crate::linear::{is_res_conn, is_silu, is_silu_mul, silu_steps};
use crate::reals::{lemma_constants, reads, Reading};
use crate::rope::{
    angle_steps, at3, is_angle, is_rope, is_roped_at, is_rotation, rotation_steps,
};
use crate::tensor::{product, Tensor};

verus! {

/// `silu` makes of `x` and `u` what is, times `1 + exp(-x)`, their product. It is zero where the
/// product is, and has its sign.
pub proof fn law_silu<T: Copy, A: Arith<T>>(
    ar: &A,
    m: Reading<T>,
    before: Tensor<T>,
    up: Tensor<T>,
    after: Tensor<T>,
    k: int,
)
    requires
        reads(ar, m),
        is_silu_mul(ar, before, up, after),
        0 <= k < before.data@.len(),
        k < up.data@.len(),
        !m.is_low(before.data@[k]),
        !m.is_low(up.data@[k]),
    ensures
        ({
            let x = m.of(before.data@[k]);
            let u = m.of(up.data@[k]);
            let r = m.of(after.data@[k]);
            &&& !m.is_low(after.data@[k])
            &&& r * (1real + (m.exp)(0real - x)) == x * u
            &&& x * u > 0real ==> r > 0real
            &&& x * u < 0real ==> r < 0real
            &&& x * u == 0real ==> r == 0real
        }),
{
    let a = before.data@[k];
    let b = up.data@[k];
    let c = after.data@[k];
    assert(is_silu(ar, a, b, c));
    let (minus, power, one, below, gate) = choose|
        minus: T,
        power: T,
        one: T,
        below: T,
        gate: T,
    | silu_steps(ar, a, b, minus, power, one, below, gate, c);
    lemma_constants();
    let x = m.of(a);
    let u = m.of(b);
    let r = m.of(c);
    let d = 1real + (m.exp)(0real - x);
    assert(m.of(below) == d);
    assert((m.exp)(0real - x) > 0real);
    let g = m.of(gate);
    assert(g * d == x);
    assert(r == g * u);
    assert(r * d == x * u) by (nonlinear_arith)
        requires
            r == g * u,
            g * d == x,
    ;
    assert((x * u > 0real ==> r > 0real) && (x * u < 0real ==> r < 0real) && (x * u == 0real ==> r
        == 0real)) by (nonlinear_arith)
        requires
            r * d == x * u,
            d > 0real,
    ;
}

/// The residual connection adds element by element, as far as the shape and the other tensor go.
pub proof fn law_residual<T: Copy, A: Arith<T>>(
    ar: &A,
    m: Reading<T>,
    before: Tensor<T>,
    added: Tensor<T>,
    after: Tensor<T>,
    k: int,
)
    requires
        reads(ar, m),
        is_res_conn(ar, before, added, after),
        0 <= k < before.data@.len(),
        !m.is_low(before.data@[k]),
        k < added.data@.len() ==> !m.is_low(added.data@[k]),
    ensures
        !m.is_low(after.data@[k]),
        m.of(after.data@[k]) == m.of(before.data@[k]) + if k < added.data@.len() && k < product(
            before.shape@,
        ) {
            m.of(added.data@[k])
        } else {
            0real
        },
        after.shape@ == before.shape@,
{
    let a = after.data@[k];
}

// ---- Rotary positions ----

/// `(y1, y2)` is `(x1, x2)` turned by an angle.
pub open spec fn is_turned<T>(m: Reading<T>, angle: real, x1: T, x2: T, y1: T, y2: T) -> bool {
    let c = (m.cos)(angle);
    let s = (m.sin)(angle);
    &&& m.of(y1) == m.of(x1) * c - m.of(x2) * s
    &&& m.of(y2) == m.of(x1) * s + m.of(x2) * c
}

/// The angle of pair `d` at a position: the position, divided by the base to the power of twice
/// the share of the pair in the head.
pub open spec fn angle_of<T>(m: Reading<T>, base: real, dim: int, d: int, position: int) -> real {
    (position as real) / (m.power)(base, ((2 * d) as real) / (dim as real))
}

proof fn lemma_angle<T: Copy, A: Arith<T>>(
    ar: &A,
    m: Reading<T>,
    theta: T,
    dim: usize,
    d: usize,
    position: usize,
    r: T,
)
    requires
        reads(ar, m),
        is_angle(ar, theta, dim, d, position, r),
        !m.is_low(theta),
        m.of(theta) > 0real,
        dim > 0,
    ensures
        !m.is_low(r),
        m.of(r) == angle_of(m, m.of(theta), dim as int, d as int, position as int),
{
    let (minus_two, pair, above, below, power, speed, turns) = choose|
        minus_two: T,
        pair: T,
        above: T,
        below: T,
        power: T,
        speed: T,
        turns: T,
    |
        angle_steps(
            ar,
            theta,
            dim,
            d,
            position,
            minus_two,
            pair,
            above,
            below,
            power,
            speed,
            turns,
            r,
        );
    lemma_constants();
    let b = m.of(theta);
    let n = (dim as int) as real;
    let e = ((2 * d) as real) / n;
    let p = m.of(power);
    assert(m.of(above) == (0real - 2real) * ((d as int) as real));
    assert(p * n == m.of(above));
    assert(e * n == (2 * d) as real) by (nonlinear_arith)
        requires
            e == ((2 * d) as real) / n,
            n > 0real,
    ;
    assert(p == 0real - e) by (nonlinear_arith)
        requires
            p * n == 0real - e * n,
            n > 0real,
    ;
    let up = (m.power)(b, e);
    let down = (m.power)(b, p);
    assert(e + p == 0real);
    assert((m.power)(b, e + p) == up * down);
    assert(up * down == 1real);
    let position = (position as int) as real;
    assert(m.of(r) == position * down);
    assert(position * down == position / up) by (nonlinear_arith)
        requires
            up * down == 1real,
            up > 0real,
    ;
}

/// Each pair of a head is turned by the angle of its position: of a head of `dim` elements, element
/// `d` goes with the one half a head behind it, and pair `d` turns by the position divided by the
/// base to the power of `2 * d / dim`.
pub proof fn law_rope<T: Copy, A: Arith<T>>(
    ar: &A,
    m: Reading<T>,
    theta: T,
    current_pos: usize,
    before: Tensor<T>,
    after: Tensor<T>,
    pos: int,
    h: int,
    d: int,
)
    requires
        reads(ar, m),
        is_rope(ar, theta, current_pos, before, after),
        !m.is_low(theta),
        m.of(theta) > 0real,
        0 <= pos < before.shape@[0],
        0 <= h < before.shape@[1],
        0 <= d < before.shape@[2] as int / 2,
        pos + current_pos <= usize::MAX,
        ({
            let start = pos * before.strides@[0] + h * before.strides@[1];
            let half = before.shape@[2] as int / 2;
            &&& !m.is_low(before.data@[start + d * before.strides@[2]])
            &&& !m.is_low(before.data@[start + (d + half) * before.strides@[2]])
        }),
    ensures
        ({
            let dim = before.shape@[2] as int;
            let start = pos * before.strides@[0] + h * before.strides@[1];
            let i = start + d * before.strides@[2];
            let j = start + (d + dim / 2) * before.strides@[2];
            &&& is_turned(
                m,
                angle_of(m, m.of(theta), dim, d, pos + current_pos),
                before.data@[i],
                before.data@[j],
                after.data@[i],
                after.data@[j],
            )
            &&& !m.is_low(after.data@[i])
            &&& !m.is_low(after.data@[j])
        }),
{
    let dim = before.shape@[2];
    let half = dim as int / 2;
    let start = pos * before.strides@[0] + h * before.strides@[1];
    let i = start + d * before.strides@[2];
    let j = start + (d + half) * before.strides@[2];
    assert(i == at3(before.strides@, pos, h, d));
    assert(j == at3(before.strides@, pos, h, d + half));
    assert(is_roped_at(
        ar,
        theta,
        dim,
        current_pos as int,
        before.strides@,
        before.data@,
        after.data@,
        pos,
        h,
        d,
    ));
    let x1 = before.data@[i];
    let x2 = before.data@[j];
    let y1 = after.data@[i];
    let y2 = after.data@[j];
    let p = (pos + current_pos) as usize;
    let angle = choose|angle: T|
        is_angle(ar, theta, dim, d as usize, p, angle) && #[trigger] is_rotation(
            ar,
            angle,
            x1,
            x2,
            y1,
            y2,
        );
    lemma_angle(ar, m, theta, dim, d as usize, p, angle);
    let (c, s, x1c, x2s, x1s, x2c) = choose|c: T, s: T, x1c: T, x2s: T, x1s: T, x2c: T|
        rotation_steps(ar, angle, x1, x2, c, s, x1c, x2s, x1s, x2c, y1, y2);
    assert(!m.is_low(x1) && !m.is_low(x2));
}

/// At one position the angles fall from pair to pair, where the base is above one.
pub proof fn law_angles_fall<T: Copy, A: Arith<T>>(
    ar: &A,
    m: Reading<T>,
    theta: T,
    dim: usize,
    d: usize,
    e: usize,
    position: usize,
    r: T,
    s: T,
)
    requires
        reads(ar, m),
        is_angle(ar, theta, dim, d, position, r),
        is_angle(ar, theta, dim, e, position, s),
        !m.is_low(theta),
        m.of(theta) > 1real,
        d < e,
        dim > 0,
        position > 0,
    ensures
        m.of(s) < m.of(r),
{
    lemma_angle(ar, m, theta, dim, d, position, r);
    lemma_angle(ar, m, theta, dim, e, position, s);
    let b = m.of(theta);
    let n = (dim as int) as real;
    let x = ((2 * d) as real) / n;
    let y = ((2 * e) as real) / n;
    assert(x < y) by (nonlinear_arith)
        requires
            x == ((2 * d) as real) / n,
            y == ((2 * e) as real) / n,
            d < e,
            n > 0real,
    ;
    let p = (m.power)(b, x);
    let q = (m.power)(b, y);
    assert(0real < p < q);
    let t = (position as int) as real;
    assert(t / q < t / p) by (nonlinear_arith)
        requires
            0real < p < q,
            t > 0real,
    ;
}

/// The angles of one pair are added with the positions.
pub proof fn law_angles_add<T: Copy, A: Arith<T>>(
    ar: &A,
    m: Reading<T>,
    theta: T,
    dim: usize,
    d: usize,
    p: usize,
    q: usize,
    a: T,
    b: T,
    c: T,
)
    requires
        reads(ar, m),
        p + q <= usize::MAX,
        is_angle(ar, theta, dim, d, p, a),
        is_angle(ar, theta, dim, d, q, b),
        is_angle(ar, theta, dim, d, (p + q) as usize, c),
        !m.is_low(theta),
        m.of(theta) > 0real,
        dim > 0,
    ensures
        m.of(c) == m.of(a) + m.of(b),
{
    lemma_angle(ar, m, theta, dim, d, p, a);
    lemma_angle(ar, m, theta, dim, d, q, b);
    lemma_angle(ar, m, theta, dim, d, (p + q) as usize, c);
    let s = (m.power)(m.of(theta), ((2 * d) as real) / ((dim as int) as real));
    let x = (p as int) as real;
    let y = (q as int) as real;
    assert((x + y) / s == x / s + y / s) by (nonlinear_arith)
        requires
            s > 0real,
    ;
}

} // verus!
