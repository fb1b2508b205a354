//! Dense tensors, weight tensors and their row-major strides.
use vstd::prelude::*;

verus! {

/// The number of elements of a tensor with these dimensions.
pub open spec fn product(dims: Seq<usize>) -> nat
    decreases dims.len(),
{
    if dims.len() == 0 {
        1
    } else {
        dims[0] as nat * product(dims.drop_first())
    }
}

/// Every product of trailing dimensions, the whole shape included, is a machine word.
pub open spec fn tails_fit(shape: Seq<usize>) -> bool {
    forall|i: int| 0 <= i <= shape.len() ==> product(#[trigger] shape.skip(i)) <= usize::MAX
}

/// Every product of leading dimensions is a machine word.
pub open spec fn heads_fit(shape: Seq<usize>) -> bool {
    forall|k: int| 0 <= k <= shape.len() ==> product(#[trigger] shape.take(k)) <= usize::MAX
}

/// `strides` are the row-major strides of `shape`: one step along a dimension passes over all the
/// elements of the dimensions behind it.
pub open spec fn row_major(shape: Seq<usize>, strides: Seq<usize>) -> bool {
    &&& strides.len() == shape.len()
    &&& forall|i: int|
        0 <= i < shape.len() ==> (#[trigger] strides[i]) as nat == product(shape.skip(i + 1))
}

pub(crate) proof fn lemma_product_step(shape: Seq<usize>, i: int)
    requires
        0 <= i < shape.len(),
    ensures
        product(shape.skip(i)) == shape[i] as nat * product(shape.skip(i + 1)),
{
    assert(shape.skip(i).drop_first() =~= shape.skip(i + 1));
}

pub(crate) proof fn lemma_product_1(shape: Seq<usize>)
    requires
        shape.len() == 1,
    ensures
        product(shape) == shape[0],
        product(shape.skip(1)) == 1,
{
    lemma_product_step(shape, 0);
    assert(shape.skip(0) =~= shape);
    assert(product(shape.skip(1)) == 1);
    assert(shape[0] as nat * 1 == shape[0]) by (nonlinear_arith);
}

pub(crate) proof fn lemma_product_2(shape: Seq<usize>)
    requires
        shape.len() == 2,
    ensures
        product(shape) == shape[0] * shape[1],
        product(shape.skip(1)) == shape[1],
        product(shape.skip(2)) == 1,
{
    lemma_product_step(shape, 0);
    lemma_product_step(shape, 1);
    assert(shape.skip(0) =~= shape);
    assert(product(shape.skip(2)) == 1);
    assert(shape[1] as nat * 1 == shape[1]) by (nonlinear_arith);
}

pub(crate) proof fn lemma_product_3(shape: Seq<usize>)
    requires
        shape.len() == 3,
    ensures
        product(shape) == shape[0] * (shape[1] * shape[2]),
        product(shape.skip(1)) == shape[1] * shape[2],
        product(shape.skip(2)) == shape[2],
        product(shape.skip(3)) == 1,
{
    lemma_product_step(shape, 0);
    lemma_product_step(shape, 1);
    lemma_product_step(shape, 2);
    assert(shape.skip(0) =~= shape);
    assert(product(shape.skip(3)) == 1);
    assert(shape[2] as nat * 1 == shape[2]) by (nonlinear_arith);
}

pub(crate) proof fn lemma_product_last(dims: Seq<usize>)
    requires
        dims.len() > 0,
    ensures
        product(dims) == product(dims.drop_last()) * dims.last() as nat,
    decreases dims.len(),
{
    if dims.len() == 1 {
        assert(dims.drop_first() =~= Seq::<usize>::empty());
        assert(dims.drop_last() =~= Seq::<usize>::empty());
        assert(dims[0] as nat * 1 == 1 * dims[0] as nat);
    } else {
        let rest = dims.drop_first();
        lemma_product_last(rest);
        assert(rest.drop_last() =~= dims.drop_last().drop_first());
        let a = dims[0] as nat;
        let b = product(rest.drop_last());
        let c = dims.last() as nat;
        assert(a * (b * c) == (a * b) * c) by (nonlinear_arith);
    }
}

pub(crate) proof fn lemma_heads_2(shape: Seq<usize>)
    requires
        shape.len() == 2,
        product(shape) <= usize::MAX,
    ensures
        heads_fit(shape),
{
    assert forall|k: int| 0 <= k <= 2 implies product(#[trigger] shape.take(k)) <= usize::MAX by {
        if k == 1 {
            lemma_product_1(shape.take(1));
        } else if k == 2 {
            assert(shape.take(2) =~= shape);
        }
    }
}

/// The place of an element by its coordinates.
pub open spec fn place_of(coords: Seq<int>, strides: Seq<usize>) -> int
    decreases coords.len(),
{
    if coords.len() == 0 {
        0
    } else {
        coords[0] * strides[0] + place_of(coords.drop_first(), strides.drop_first())
    }
}

/// The coordinates of an element of a tensor with these dimensions.
pub open spec fn are_coordinates(coords: Seq<int>, shape: Seq<usize>) -> bool {
    &&& coords.len() == shape.len()
    &&& forall|i: int| 0 <= i < coords.len() ==> 0 <= #[trigger] coords[i] < shape[i]
}

proof fn lemma_row_major_tail(shape: Seq<usize>, strides: Seq<usize>)
    requires
        row_major(shape, strides),
        shape.len() > 0,
    ensures
        row_major(shape.drop_first(), strides.drop_first()),
        strides[0] == product(shape.drop_first()),
{
    let rest = shape.drop_first();
    let steps = strides.drop_first();
    assert(shape.skip(1) =~= rest);
    assert(strides[0] as nat == product(shape.skip(1)));
    assert forall|i: int| 0 <= i < rest.len() implies (#[trigger] steps[i]) as nat == product(
        rest.skip(i + 1),
    ) by {
        assert(steps[i] == strides[i + 1]);
        assert(rest.skip(i + 1) =~= shape.skip(i + 2));
    }
}

proof fn lemma_coordinates_tail(coords: Seq<int>, shape: Seq<usize>)
    requires
        are_coordinates(coords, shape),
        shape.len() > 0,
    ensures
        are_coordinates(coords.drop_first(), shape.drop_first()),
{
    let rest = coords.drop_first();
    assert forall|i: int| 0 <= i < rest.len() implies 0 <= #[trigger] rest[i]
        < shape.drop_first()[i] by {
        assert(rest[i] == coords[i + 1]);
    }
}

/// Elements whose last coordinates follow each other lie side by side, and each stride but the last
/// is the next one times the dimension that it steps over.
pub proof fn law_last_coordinate_is_nearest(shape: Seq<usize>, strides: Seq<usize>, i: int)
    requires
        row_major(shape, strides),
        0 <= i < shape.len(),
    ensures
        strides.len() == shape.len(),
        strides[i] == if i + 1 == shape.len() {
            1
        } else {
            strides[i + 1] * shape[i + 1]
        },
{
    let rest = shape.skip(i + 1);
    assert(strides[i] as nat == product(rest));
    if i + 1 < shape.len() {
        assert(rest.drop_first() =~= shape.skip(i + 2));
        assert(strides[i + 1] as nat == product(shape.skip(i + 2)));
        let a = shape[i + 1] as int;
        let b = strides[i + 1] as int;
        assert(a * b == b * a) by (nonlinear_arith);
    }
}

/// With row-major strides each element has a place among as many as there are elements.
pub proof fn law_places_lie_within(coords: Seq<int>, shape: Seq<usize>, strides: Seq<usize>)
    requires
        row_major(shape, strides),
        are_coordinates(coords, shape),
    ensures
        0 <= place_of(coords, strides) < product(shape),
    decreases shape.len(),
{
    if shape.len() > 0 {
        lemma_row_major_tail(shape, strides);
        lemma_coordinates_tail(coords, shape);
        law_places_lie_within(coords.drop_first(), shape.drop_first(), strides.drop_first());
        let a = coords[0];
        let n = shape[0] as int;
        let step = strides[0] as int;
        let rest = place_of(coords.drop_first(), strides.drop_first());
        assert(0 <= a * step + rest < n * step) by (nonlinear_arith)
            requires
                0 <= a < n,
                0 <= rest < step,
        ;
    }
}

/// With row-major strides no two elements have one place.
pub proof fn law_places_differ(
    a: Seq<int>,
    b: Seq<int>,
    shape: Seq<usize>,
    strides: Seq<usize>,
)
    requires
        row_major(shape, strides),
        are_coordinates(a, shape),
        are_coordinates(b, shape),
        place_of(a, strides) == place_of(b, strides),
    ensures
        a == b,
    decreases shape.len(),
{
    if shape.len() == 0 {
        assert(a =~= b);
    } else {
        let rest = shape.drop_first();
        let steps = strides.drop_first();
        lemma_row_major_tail(shape, strides);
        lemma_coordinates_tail(a, shape);
        lemma_coordinates_tail(b, shape);
        law_places_lie_within(a.drop_first(), rest, steps);
        law_places_lie_within(b.drop_first(), rest, steps);
        let step = strides[0] as int;
        let p = place_of(a.drop_first(), steps);
        let q = place_of(b.drop_first(), steps);
        assert(a[0] == b[0]) by (nonlinear_arith)
            requires
                a[0] * step + p == b[0] * step + q,
                0 <= p < step,
                0 <= q < step,
        ;
        law_places_differ(a.drop_first(), b.drop_first(), rest, steps);
        assert(a =~= seq![a[0]] + a.drop_first());
        assert(b =~= seq![b[0]] + b.drop_first());
    }
}

/// A dense tensor: its elements, its dimensions and the step of each dimension.
///
/// A buffer may hold more elements than its shape names; `update_shape` names another part of it.
#[derive(Debug, Clone)]
pub struct Tensor<T> {
    pub data: Vec<T>,
    pub shape: Vec<usize>,
    pub strides: Vec<usize>,
}

impl<T> Tensor<T> {
    /// The strides are those of the shape, and no product of trailing dimensions overflows.
    pub open spec fn wf(self) -> bool {
        &&& tails_fit(self.shape@)
        &&& row_major(self.shape@, self.strides@)
    }

    /// A tensor of the given elements and dimensions, in row-major order.
    pub fn new(data: Vec<T>, shape: Vec<usize>) -> (r: Self)
        requires
            tails_fit(shape@),
        ensures
            r.data@ == data@,
            r.shape@ == shape@,
            r.wf(),
    {
        let strides = strides_for(&shape);
        Tensor { data, shape, strides }
    }

    /// Gives the tensor other dimensions; the elements stay where they are.
    pub fn update_shape(&mut self, shape: Vec<usize>)
        requires
            tails_fit(shape@),
        ensures
            final(self).data@ == old(self).data@,
            final(self).shape@ == shape@,
            final(self).wf(),
    {
        self.strides = strides_for(&shape);
        self.shape = shape;
    }
}

fn strides_for(shape: &Vec<usize>) -> (stride: Vec<usize>)
    requires
        tails_fit(shape@),
    ensures
        row_major(shape@, stride@),
{
    let n = shape.len();
    let mut stride: Vec<usize> = Vec::new();
    stride.resize(n, 1);
    let mut state: usize = 1;
    let mut i: usize = n;
    assert(shape@.skip(n as int).len() == 0);
    while i > 0
        invariant
            i <= n,
            n == shape@.len(),
            n == stride@.len(),
            tails_fit(shape@),
            state as nat == product(shape@.skip(i as int)),
            forall|j: int|
                i <= j < n ==> (#[trigger] stride@[j]) as nat == product(shape@.skip(j + 1)),
        decreases i,
    {
        let ghost before = i as int;
        i = i - 1;
        stride[i] = state;
        proof {
            lemma_product_step(shape@, i as int);
            assert(product(shape@.skip(i as int)) <= usize::MAX);
            assert(state as nat * shape@[i as int] as nat == shape@[i as int] as nat
                * state as nat) by (nonlinear_arith);
        }
        state = state * shape[i];
    }
    stride
}

/// The row-major strides of a shape.
pub fn update_stride(shape: &Vec<usize>) -> (r: Result<Vec<usize>, String>)
    requires
        tails_fit(shape@),
    ensures
        r matches Ok(stride) && row_major(shape@, stride@),
{
    Ok(strides_for(shape))
}

/// A block of quantized weights: a scale and 32 signed bytes.
#[derive(Debug, Clone, Copy)]
pub struct BlockQ8_0<T> {
    pub d: T,
    pub qs: [i8; 32],
}

/// The elements of a weight tensor, in one of the three stored forms.
#[derive(Debug)]
pub enum WeightData<'a, T> {
    BF16(&'a [u16]),
    Q8(&'a [BlockQ8_0<T>]),
    F32(&'a [T]),
}

/// A weight tensor: stored elements, dimensions and strides.
#[derive(Debug)]
pub struct WeightTensor<'a, T> {
    pub data: WeightData<'a, T>,
    pub shape: Vec<usize>,
    pub strides: Vec<usize>,
}

impl<'a, T> WeightTensor<'a, T> {
    /// The strides are those of the shape, and no product of trailing dimensions overflows.
    pub open spec fn wf(self) -> bool {
        &&& tails_fit(self.shape@)
        &&& row_major(self.shape@, self.strides@)
    }

    /// A weight tensor of the given elements and dimensions, in row-major order.
    pub fn new(data: WeightData<'a, T>, shape: Vec<usize>) -> (r: Self)
        requires
            tails_fit(shape@),
        ensures
            r.data == data,
            r.shape@ == shape@,
            r.wf(),
    {
        let strides = strides_for(&shape);
        WeightTensor { data, shape, strides }
    }
}

} // verus!
