//! What formulas compute, over any arithmetic.
//!
//! A [`Tensor`] gives a number for each index. The numbers and the operations on them are left open
//! as an [`Arithmetic`]: what holds of all of them holds of floating-point numbers too, as far as
//! an implementation computes each element by itself, from the elements that the operation names.
use crate::graph;
use crate::graph::{Dims, FloatSetting, Node, Pairwise, Projection, SameShape, Scalar, Scan, Slot};
use crate::ops;
use std::rc::Rc;
use vstd::prelude::*;

verus! {

/// A tensor: a number for each index within its shape, all of one format.
#[verifier::reject_recursive_types(E)]
pub struct Tensor<E> {
    pub shape: Seq<nat>,
    pub format: int,
    pub at: spec_fn(Seq<int>) -> E,
}

/// The operations on numbers, and the weights of the linear maps, the embedding and the convolution.
#[verifier::reject_recursive_types(E)]
pub struct Arithmetic<E> {
    pub zero: E,
    /// What a mask adds to a score that is to be hidden.
    pub hidden: E,
    /// The formats of single precision and of the model.
    pub single: int,
    pub model: int,
    /// The format in which numbers of a format are worked on.
    pub widened: spec_fn(int) -> int,
    /// A number in another format.
    pub cast: spec_fn(int, E) -> E,
    /// The operations on one number.
    pub apply: spec_fn(SameShape, E) -> E,
    /// The operations on two numbers.
    pub pair: spec_fn(Pairwise, E, E) -> E,
    pub plus: spec_fn(E, Scalar) -> E,
    pub times: spec_fn(E, Scalar) -> E,
    pub sum: spec_fn(Seq<E>) -> E,
    pub mean: spec_fn(Seq<E>) -> E,
    /// The sum of the products of two rows.
    pub dot: spec_fn(Seq<E>, Seq<E>) -> E,
    pub softmax: spec_fn(Seq<E>) -> Seq<E>,
    /// The normalised row, from the setting, the weight and the row.
    pub rms_norm: spec_fn(FloatSetting, Seq<E>, Seq<E>) -> Seq<E>,
    /// The rotated row, from the row and the rows of the tables.
    pub rotate: spec_fn(Seq<E>, Seq<E>, Seq<E>) -> Seq<E>,
    /// The image of a row, and the width of images.
    pub linear: spec_fn(Projection, Seq<E>) -> Seq<E>,
    pub width: spec_fn(Projection) -> nat,
    /// The row of a token, and the width of rows.
    pub embed: spec_fn(E) -> Seq<E>,
    pub embedding: nat,
    /// What a channel of the convolution makes of a window, and the length of windows.
    pub conv: spec_fn(int, Seq<E>) -> E,
    pub kernel: nat,
}

/// What a formula refers to.
#[verifier::reject_recursive_types(E)]
pub struct World<E> {
    pub arithmetic: Arithmetic<E>,
    pub leaf: spec_fn(Slot) -> Tensor<E>,
    /// Within a scan, the number of the step and the state that is carried.
    pub step: int,
    pub carry: Tensor<E>,
}

impl<E> World<E> {
    /// The same in a step of a scan.
    pub open spec fn in_step(self, step: int, carry: Tensor<E>) -> World<E> {
        World { step, carry, ..self }
    }

    /// The same with another tensor in a slot.
    pub open spec fn with(self, slot: Slot, tensor: Tensor<E>) -> World<E> {
        World {
            leaf: |s: Slot|
                if s == slot {
                    tensor
                } else {
                    (self.leaf)(s)
                },
            ..self
        }
    }
}

/// The index lies within the shape.
pub open spec fn within(shape: Seq<nat>, idx: Seq<int>) -> bool {
    idx.len() == shape.len() && forall|j: int|
        0 <= j < idx.len() ==> 0 <= #[trigger] idx[j] < shape[j]
}

/// The tensor with the given elements.
pub open spec fn tensor<E>(shape: Seq<nat>, format: int, f: spec_fn(Seq<int>) -> E) -> Tensor<E> {
    Tensor {
        shape,
        format,
        at: |idx: Seq<int>|
            if within(shape, idx) {
                f(idx)
            } else {
                arbitrary()
            },
    }
}

impl<E> Tensor<E> {
    /// The tensor holds nothing beyond its shape.
    pub open spec fn regular(self) -> bool {
        forall|idx: Seq<int>|
            !within(self.shape, idx) ==> #[trigger] (self.at)(idx) == arbitrary::<E>()
    }
}

/// Tensors are equal that agree within their shape.
pub proof fn lemma_equal<E>(a: Tensor<E>, b: Tensor<E>)
    requires
        a.regular(),
        b.regular(),
        a.shape == b.shape,
        a.format == b.format,
        forall|idx: Seq<int>| #[trigger] within(a.shape, idx) ==> (a.at)(idx) == (b.at)(idx),
    ensures
        a == b,
{
    assert forall|idx: Seq<int>| #[trigger] (a.at)(idx) == (b.at)(idx) by {
        if !within(a.shape, idx) {
            assert((a.at)(idx) == (b.at)(idx));
        }
    }
    assert(a.at =~= b.at);
}

/// The position of an index in memory order.
pub open spec fn offset(shape: Seq<nat>, idx: Seq<int>) -> int
    decreases shape.len(),
{
    if shape.len() == 0 {
        0
    } else {
        offset(shape.drop_last(), idx.drop_last()) * shape.last() + idx.last()
    }
}

/// The index at a position in memory order.
pub open spec fn place(shape: Seq<nat>, position: int) -> Seq<int>
    decreases shape.len(),
{
    if shape.len() == 0 {
        Seq::empty()
    } else {
        place(shape.drop_last(), position / shape.last() as int).push(
            position % shape.last() as int,
        )
    }
}

/// The index of a tensor that is broadcast to where `idx` lies.
pub open spec fn clipped(shape: Seq<nat>, idx: Seq<int>) -> Seq<int> {
    Seq::new(
        shape.len(),
        |j: int|
            if shape[j] == 1 {
                0
            } else {
                idx[j + idx.len() - shape.len()]
            },
    )
}

/// The elements of a tensor along `dim`, through `idx`.
pub open spec fn line<E>(t: Tensor<E>, dim: int, idx: Seq<int>) -> Seq<E> {
    Seq::new(t.shape[dim], |k: int| (t.at)(idx.update(dim, k)))
}

pub open spec fn mapped<E>(t: Tensor<E>, f: spec_fn(E) -> E) -> Tensor<E> {
    tensor(t.shape, t.format, |idx: Seq<int>| f((t.at)(idx)))
}

/// The same numbers in another format; nothing happens to numbers that have it.
pub open spec fn formatted<E>(t: Tensor<E>, format: int, a: Arithmetic<E>) -> Tensor<E> {
    if t.format == format {
        t
    } else {
        tensor(t.shape, format, |idx: Seq<int>| (a.cast)(format, (t.at)(idx)))
    }
}

/// Each row replaced by an image of the given width.
pub open spec fn by_rows<E>(t: Tensor<E>, width: nat, f: spec_fn(Seq<E>) -> Seq<E>) -> Tensor<E> {
    let last = t.shape.len() - 1;
    tensor(
        t.shape.update(last, width),
        t.format,
        |idx: Seq<int>| f(line(t, last, idx))[idx[last]],
    )
}

/// Each row replaced by one number.
pub open spec fn by_row<E>(t: Tensor<E>, f: spec_fn(Seq<E>) -> E) -> Tensor<E> {
    let last = t.shape.len() - 1;
    tensor(t.shape.update(last, 1), t.format, |idx: Seq<int>| f(line(t, last, idx)))
}

pub open spec fn narrowed<E>(t: Tensor<E>, dim: int, start: int, len: nat) -> Tensor<E> {
    tensor(
        t.shape.update(dim, len),
        t.format,
        |idx: Seq<int>| (t.at)(idx.update(dim, idx[dim] + start)),
    )
}

pub open spec fn transposed<E>(t: Tensor<E>, a: int, b: int) -> Tensor<E> {
    tensor(
        t.shape.update(a, t.shape[b]).update(b, t.shape[a]),
        t.format,
        |idx: Seq<int>| (t.at)(idx.update(a, idx[b]).update(b, idx[a])),
    )
}

pub open spec fn unsqueezed<E>(t: Tensor<E>, dim: int) -> Tensor<E> {
    tensor(t.shape.insert(dim, 1), t.format, |idx: Seq<int>| (t.at)(idx.remove(dim)))
}

pub open spec fn selected<E>(t: Tensor<E>, dim: int, index: int) -> Tensor<E> {
    tensor(t.shape.remove(dim), t.format, |idx: Seq<int>| (t.at)(idx.insert(dim, index)))
}

pub open spec fn summed<E>(t: Tensor<E>, dim: int, a: Arithmetic<E>) -> Tensor<E> {
    tensor(
        t.shape.remove(dim),
        t.format,
        |idx: Seq<int>| (a.sum)(Seq::new(t.shape[dim], |k: int| (t.at)(idx.insert(dim, k)))),
    )
}

/// The same elements in memory order, in another shape.
pub open spec fn reshaped<E>(t: Tensor<E>, shape: Seq<nat>) -> Tensor<E> {
    tensor(shape, t.format, |idx: Seq<int>| (t.at)(place(t.shape, offset(shape, idx))))
}

/// The first three dimensions made one.
pub open spec fn flattened<E>(t: Tensor<E>) -> Tensor<E> {
    reshaped(t, seq![graph::elements(t.shape.take(3))] + t.shape.skip(3))
}

/// Each row normalised, with a weight for its elements.
pub open spec fn normed<E>(
    t: Tensor<E>,
    weight: Tensor<E>,
    eps: FloatSetting,
    a: Arithmetic<E>,
) -> Tensor<E> {
    let w = line(weight, 0, seq![0]);
    by_rows(t, t.shape.last(), |row: Seq<E>| (a.rms_norm)(eps, w, row))
}

pub open spec fn expanded<E>(t: Tensor<E>, shape: Seq<nat>) -> Tensor<E> {
    tensor(shape, t.format, |idx: Seq<int>| (t.at)(clipped(t.shape, idx)))
}

pub open spec fn joined<E>(a: Tensor<E>, b: Tensor<E>, dim: int) -> Tensor<E> {
    tensor(
        a.shape.update(dim, a.shape[dim] + b.shape[dim]),
        a.format,
        |idx: Seq<int>|
            if idx[dim] < a.shape[dim] {
                (a.at)(idx)
            } else {
                (b.at)(idx.update(dim, idx[dim] - a.shape[dim]))
            },
    )
}

/// Items of equal shapes, one after the other along `dim`.
pub open spec fn laid<E>(items: Seq<Tensor<E>>, dim: int) -> Tensor<E> {
    let w = items[0].shape[dim];
    tensor(
        items[0].shape.update(dim, items.len() * w),
        items[0].format,
        |idx: Seq<int>|
            if w == 1 {
                (items[idx[dim]].at)(idx.update(dim, 0))
            } else {
                (items[idx[dim] / w as int].at)(idx.update(dim, idx[dim] % w as int))
            },
    )
}

pub open spec fn repeated<E>(t: Tensor<E>, times: nat) -> Tensor<E> {
    tensor(
        t.shape.update(1, t.shape[1] * times),
        t.format,
        |idx: Seq<int>| (t.at)(idx.update(1, idx[1] / times as int)),
    )
}

/// Element by element.
pub open spec fn combined<E>(x: Tensor<E>, y: Tensor<E>, f: spec_fn(E, E) -> E) -> Tensor<E> {
    tensor(x.shape, x.format, |idx: Seq<int>| f((x.at)(idx), (y.at)(idx)))
}

/// Element by element, after broadcasting.
pub open spec fn broadcasted<E>(x: Tensor<E>, y: Tensor<E>, f: spec_fn(E, E) -> E) -> Tensor<E> {
    tensor(
        graph::broadcast(x.shape, y.shape)->0,
        x.format,
        |idx: Seq<int>| f((x.at)(clipped(x.shape, idx)), (y.at)(clipped(y.shape, idx))),
    )
}

/// The product of matrices: each element from a row of the first and a column of the second.
pub open spec fn multiplied<E>(x: Tensor<E>, y: Tensor<E>, a: Arithmetic<E>) -> Tensor<E> {
    let n = x.shape.len() as int;
    tensor(
        x.shape.update(n - 1, y.shape[n - 1]),
        x.format,
        |idx: Seq<int>| (a.dot)(line(x, n - 1, idx), line(y, n - 2, idx)),
    )
}

/// The rotary embedding: each row with the rows of the tables for its position.
pub open spec fn rotated<E>(
    x: Tensor<E>,
    cos: Tensor<E>,
    sin: Tensor<E>,
    a: Arithmetic<E>,
) -> Tensor<E> {
    tensor(
        x.shape,
        x.format,
        |idx: Seq<int>|
            (a.rotate)(
                line(x, 3, idx),
                line(cos, 1, seq![idx[2], 0]),
                line(sin, 1, seq![idx[2], 0]),
            )[idx[3]],
    )
}

/// The convolution of each channel, without padding.
pub open spec fn convolved<E>(t: Tensor<E>, a: Arithmetic<E>) -> Tensor<E> {
    tensor(
        t.shape.update(2, (t.shape[2] - a.kernel + 1) as nat),
        t.format,
        |idx: Seq<int>|
            (a.conv)(
                idx[1],
                Seq::new(a.kernel, |k: int| (t.at)(idx.update(2, idx[2] + k))),
            ),
    )
}

pub open spec fn zeros<E>(dims: Dims, format: int, a: Arithmetic<E>) -> Tensor<E> {
    tensor(dims.filled(0)->0, format, |idx: Seq<int>| a.zero)
}

/// Row `i`, column `j`: hidden where `j` is after `i`.
pub open spec fn causal<E>(len: nat, a: Arithmetic<E>) -> Tensor<E> {
    tensor(
        seq![len, len],
        a.single,
        |idx: Seq<int>|
            if idx[1] > idx[0] {
                a.hidden
            } else {
                a.zero
            },
    )
}

pub open spec fn embedded<E>(ids: Tensor<E>, a: Arithmetic<E>) -> Tensor<E> {
    tensor(
        ids.shape.push(a.embedding),
        a.model,
        |idx: Seq<int>| (a.embed)((ids.at)(idx.drop_last()))[idx.last()],
    )
}

/// Each row replaced by its softmax.
pub open spec fn weighed<E>(t: Tensor<E>, a: Arithmetic<E>) -> Tensor<E> {
    let last = t.shape.len() - 1;
    tensor(t.shape, t.format, |idx: Seq<int>| (a.softmax)(line(t, last, idx))[idx[last]])
}

pub open spec fn applied<E>(op: SameShape, t: Tensor<E>, a: Arithmetic<E>) -> Tensor<E> {
    match op {
        SameShape::Softmax => weighed(t, a),
        SameShape::Contiguous => t,
        SameShape::Single => formatted(t, a.single, a),
        SameShape::Widen => formatted(t, (a.widened)(t.format), a),
        SameShape::ModelFormat => formatted(t, a.model, a),
        _ => mapped(t, |e: E| (a.apply)(op, e)),
    }
}

pub open spec fn paired<E>(
    op: Pairwise,
    x: Tensor<E>,
    y: Tensor<E>,
    a: Arithmetic<E>,
) -> Tensor<E> {
    match op {
        Pairwise::Add | Pairwise::Sub | Pairwise::Mul => combined(
            x,
            y,
            |p: E, q: E| (a.pair)(op, p, q),
        ),
        Pairwise::BroadcastAdd | Pairwise::BroadcastMul => broadcasted(
            x,
            y,
            |p: E, q: E| (a.pair)(op, p, q),
        ),
        Pairwise::MatMul => multiplied(x, y, a),
        Pairwise::FormatOf => formatted(x, y.format, a),
        Pairwise::WidenedFormatOf => formatted(x, (a.widened)(y.format), a),
    }
}

/// The state of a scan after `k` steps.
#[verifier::opaque]
pub open spec fn state_after<E>(scan: Rc<Scan>, k: nat, env: World<E>) -> Tensor<E>
    decreases scan, 0nat, k,
{
    if k == 0 {
        value(&scan.first, env)
    } else {
        let before = state_after(scan, (k - 1) as nat, env);
        value(&scan.next, env.in_step(k - 1, before))
    }
}

/// The items of the steps of a scan.
#[verifier::opaque]
pub open spec fn scanned<E>(scan: Rc<Scan>, env: World<E>) -> Seq<Tensor<E>>
    decreases scan, 1nat, 0nat,
{
    Seq::new(
        scan.steps as nat,
        |i: int| value(&scan.item, env.in_step(i, state_after(scan, i as nat, env))),
    )
}

/// The values of `item` in each of `steps` steps.
#[verifier::opaque]
pub open spec fn collected<E>(item: Rc<Node>, steps: nat, env: World<E>) -> Seq<Tensor<E>>
    decreases item, 1nat, 0nat,
{
    Seq::new(steps, |i: int| value(&item, env.in_step(i, arbitrary())))
}

/// What a formula computes.
#[verifier::opaque]
pub open spec fn value<E>(n: &Node, env: World<E>) -> Tensor<E>
    decreases n, 0nat, 0nat,
{
    let a = env.arithmetic;
    match *n {
        Node::Leaf(slot) => if slot == Slot::Carry {
            env.carry
        } else {
            (env.leaf)(slot)
        },
        Node::ZerosLike { dims, like } => zeros(dims, value(&like, env).format, a),
        Node::ZerosSingle { dims } => zeros(dims, a.single, a),
        Node::ZerosModel { dims } => zeros(dims, a.model, a),
        Node::CausalMask { len } => causal(len as nat, a),
        Node::Embed { ids } => embedded(value(&ids, env), a),
        Node::Linear { map, x } => by_rows(
            value(&x, env),
            (a.width)(map),
            |row: Seq<E>| (a.linear)(map, row),
        ),
        Node::RmsNorm { weight, eps, x } => normed(value(&x, env), (env.leaf)(weight), eps, a),
        Node::Conv { x } => convolved(value(&x, env), a),
        Node::Reshape { x, dims } => {
            let t = value(&x, env);
            reshaped(t, dims.filled(graph::elements(t.shape))->0)
        },
        Node::Expand { x, dims } => expanded(value(&x, env), dims.filled(0)->0),
        Node::Narrow { x, dim, start, len } => narrowed(
            value(&x, env),
            dim as int,
            start as int,
            len as nat,
        ),
        Node::NarrowStep { x, dim, len } => narrowed(
            value(&x, env),
            dim as int,
            env.step,
            len as nat,
        ),
        Node::Transpose { x, first, second } => transposed(
            value(&x, env),
            first as int,
            second as int,
        ),
        Node::Unsqueeze { x, dim } => unsqueezed(value(&x, env), dim as int),
        Node::Select { x, dim, index } => selected(value(&x, env), dim as int, index as int),
        Node::FlattenThree { x } => flattened(value(&x, env)),
        Node::Cat { first, second, dim } => joined(
            value(&first, env),
            value(&second, env),
            dim as int,
        ),
        Node::RepeatHeads { x, times } => repeated(value(&x, env), times as nat),
        Node::Apply { op, x } => applied(op, value(&x, env), a),
        Node::SumKeep { x } => by_row(value(&x, env), a.sum),
        Node::MeanKeep { x } => by_row(value(&x, env), a.mean),
        Node::Sum { x, dim } => summed(value(&x, env), dim as int, a),
        Node::Plus { x, scalar } => mapped(value(&x, env), |e: E| (a.plus)(e, scalar)),
        Node::Times { x, scalar } => mapped(value(&x, env), |e: E| (a.times)(e, scalar)),
        Node::Pair { op, a: x, b: y } => paired(op, value(&x, env), value(&y, env), a),
        Node::Rope { x, cos, sin } => rotated(
            value(&x, env),
            value(&cos, env),
            value(&sin, env),
            a,
        ),
        Node::Collect { steps, dim, item } => laid(
            collected(item, steps as nat, env),
            dim as int,
        ),
        Node::ScanItems { scan } => laid(scanned(scan, env), scan.dim as int),
        Node::ScanState { scan } => state_after(scan, scan.steps as nat, env),
    }
}

pub broadcast proof fn value_of_leaf<E>(slot: Slot, env: World<E>)
    ensures
        #[trigger] value(&ops::leaf(slot), env) == (if slot == Slot::Carry {
            env.carry
        } else {
            (env.leaf)(slot)
        }),
{
    reveal(value);
}

pub broadcast proof fn value_of_zeros_like<E>(dims: Dims, like: Rc<Node>, env: World<E>)
    ensures
        #[trigger] value(&ops::zeros_like(dims, &like), env) == zeros(dims, value(&like, env).format, env.arithmetic),
{
    reveal(value);
}

pub broadcast proof fn value_of_zeros_single<E>(dims: Dims, env: World<E>)
    ensures
        #[trigger] value(&ops::zeros_single(dims), env) == zeros(dims, env.arithmetic.single, env.arithmetic),
{
    reveal(value);
}

pub broadcast proof fn value_of_causal_mask<E>(len: usize, env: World<E>)
    ensures
        #[trigger] value(&ops::causal(len), env) == causal(len as nat, env.arithmetic),
{
    reveal(value);
}

pub broadcast proof fn value_of_linear<E>(map: Projection, x: Rc<Node>, env: World<E>)
    ensures
        #[trigger] value(&ops::linear(map, &x), env) == by_rows(
            value(&x, env),
            (env.arithmetic.width)(map),
            |row: Seq<E>| (env.arithmetic.linear)(map, row),
        ),
{
    reveal(value);
}

pub broadcast proof fn value_of_rms_norm<E>(
    weight: Slot,
    eps: FloatSetting,
    x: Rc<Node>,
    env: World<E>,
)
    ensures
        #[trigger] value(&ops::rms_norm(weight, eps, &x), env) == normed(value(&x, env), (env.leaf)(weight), eps, env.arithmetic),
{
    reveal(value);
}

pub broadcast proof fn value_of_conv<E>(x: Rc<Node>, env: World<E>)
    ensures
        #[trigger] value(&ops::conv(&x), env) == convolved(value(&x, env), env.arithmetic),
{
    reveal(value);
}

pub broadcast proof fn value_of_reshape<E>(x: Rc<Node>, dims: Dims, env: World<E>)
    ensures
        #[trigger] value(&ops::reshape(&x, dims), env) == reshaped(
            value(&x, env),
            dims.filled(graph::elements(value(&x, env).shape))->0,
        ),
{
    reveal(value);
}

pub broadcast proof fn value_of_narrow<E>(
    x: Rc<Node>,
    dim: usize,
    start: usize,
    len: usize,
    env: World<E>,
)
    ensures
        #[trigger] value(&ops::narrow(&x, dim, start, len), env) == narrowed(
            value(&x, env),
            dim as int,
            start as int,
            len as nat,
        ),
{
    reveal(value);
}

pub broadcast proof fn value_of_narrow_step<E>(x: Rc<Node>, dim: usize, len: usize, env: World<E>)
    ensures
        #[trigger] value(&ops::narrow_step(&x, dim, len), env) == narrowed(
            value(&x, env),
            dim as int,
            env.step,
            len as nat,
        ),
{
    reveal(value);
}

pub broadcast proof fn value_of_transpose<E>(
    x: Rc<Node>,
    first: usize,
    second: usize,
    env: World<E>,
)
    ensures
        #[trigger] value(&ops::transpose(&x, first, second), env) == transposed(
            value(&x, env),
            first as int,
            second as int,
        ),
{
    reveal(value);
}

pub broadcast proof fn value_of_unsqueeze<E>(x: Rc<Node>, dim: usize, env: World<E>)
    ensures
        #[trigger] value(&ops::unsqueeze(&x, dim), env) == unsqueezed(value(&x, env), dim as int),
{
    reveal(value);
}

pub broadcast proof fn value_of_flatten_three<E>(x: Rc<Node>, env: World<E>)
    ensures
        #[trigger] value(&ops::flatten_three(&x), env) == flattened(value(&x, env)),
{
    reveal(value);
}

pub broadcast proof fn value_of_cat<E>(a: Rc<Node>, b: Rc<Node>, dim: usize, env: World<E>)
    ensures
        #[trigger] value(&ops::cat(&a, &b, dim), env) == joined(
            value(&a, env),
            value(&b, env),
            dim as int,
        ),
{
    reveal(value);
}

pub broadcast proof fn value_of_repeat_heads<E>(x: Rc<Node>, times: usize, env: World<E>)
    ensures
        #[trigger] value(&ops::repeat_heads(&x, times), env) == repeated(value(&x, env), times as nat),
{
    reveal(value);
}

pub broadcast proof fn value_of_apply<E>(op: SameShape, x: Rc<Node>, env: World<E>)
    ensures
        #[trigger] value(&ops::apply(op, &x), env) == applied(op, value(&x, env), env.arithmetic),
{
    reveal(value);
}

pub broadcast proof fn value_of_sum_keep<E>(x: Rc<Node>, env: World<E>)
    ensures
        #[trigger] value(&ops::sum_keep(&x), env) == by_row(value(&x, env), env.arithmetic.sum),
{
    reveal(value);
}

pub broadcast proof fn value_of_sum<E>(x: Rc<Node>, dim: usize, env: World<E>)
    ensures
        #[trigger] value(&ops::sum(&x, dim), env) == summed(value(&x, env), dim as int, env.arithmetic),
{
    reveal(value);
}

pub broadcast proof fn value_of_plus<E>(x: Rc<Node>, scalar: Scalar, env: World<E>)
    ensures
        #[trigger] value(&ops::plus(&x, scalar), env) == mapped(
            value(&x, env),
            |e: E| (env.arithmetic.plus)(e, scalar),
        ),
{
    reveal(value);
}

pub broadcast proof fn value_of_times<E>(x: Rc<Node>, scalar: Scalar, env: World<E>)
    ensures
        #[trigger] value(&ops::times(&x, scalar), env) == mapped(
            value(&x, env),
            |e: E| (env.arithmetic.times)(e, scalar),
        ),
{
    reveal(value);
}

pub broadcast proof fn value_of_pair<E>(op: Pairwise, a: Rc<Node>, b: Rc<Node>, env: World<E>)
    ensures
        #[trigger] value(&ops::pair(op, &a, &b), env) == paired(
            op,
            value(&a, env),
            value(&b, env),
            env.arithmetic,
        ),
{
    reveal(value);
}

pub broadcast proof fn value_of_rope<E>(x: Rc<Node>, cos: Rc<Node>, sin: Rc<Node>, env: World<E>)
    ensures
        #[trigger] value(&ops::rope(&x, &cos, &sin), env) == rotated(
            value(&x, env),
            value(&cos, env),
            value(&sin, env),
            env.arithmetic,
        ),
{
    reveal(value);
}

pub broadcast proof fn value_of_collect<E>(steps: usize, dim: usize, item: Rc<Node>, env: World<E>)
    ensures
        #[trigger] value(&ops::collect(steps, dim, &item), env) == laid(
            collected(item, steps as nat, env),
            dim as int,
        ),
{
    reveal(value);
    reveal(collected);
}

pub broadcast proof fn value_of_scan_items<E>(scan: Rc<Scan>, env: World<E>)
    ensures
        #[trigger] value(&ops::scan_items(&scan), env) == laid(
            scanned(scan, env),
            scan.dim as int,
        ),
{
    reveal(value);
    reveal(scanned);
}

pub broadcast proof fn value_of_scan_state<E>(scan: Rc<Scan>, env: World<E>)
    ensures
        #[trigger] value(&ops::scan_state(&scan), env) == state_after(
            scan,
            scan.steps as nat,
            env,
        ),
{
    reveal(value);
    reveal(state_after);
}

pub broadcast proof fn value_of_zeros_model<E>(dims: Dims, env: World<E>)
    ensures
        #[trigger] value(&ops::zeros_model(dims), env) == zeros(dims, env.arithmetic.model, env.arithmetic),
{
    reveal(value);
}

pub broadcast proof fn value_of_embed<E>(ids: Rc<Node>, env: World<E>)
    ensures
        #[trigger] value(&ops::embed(&ids), env) == embedded(value(&ids, env), env.arithmetic),
{
    reveal(value);
}

pub broadcast proof fn value_of_expand<E>(x: Rc<Node>, dims: Dims, env: World<E>)
    ensures
        #[trigger] value(&ops::expand(&x, dims), env) == expanded(value(&x, env), dims.filled(0)->0),
{
    reveal(value);
}

pub broadcast proof fn value_of_select<E>(x: Rc<Node>, dim: usize, index: usize, env: World<E>)
    ensures
        #[trigger] value(&ops::select(&x, dim, index), env) == selected(
            value(&x, env),
            dim as int,
            index as int,
        ),
{
    reveal(value);
}

pub broadcast proof fn value_of_mean_keep<E>(x: Rc<Node>, env: World<E>)
    ensures
        #[trigger] value(&ops::mean_keep(&x), env) == by_row(value(&x, env), env.arithmetic.mean),
{
    reveal(value);
}

/// What each operation computes, from its operands.
pub broadcast group group_value {
    value_of_zeros_model,
    value_of_embed,
    value_of_expand,
    value_of_select,
    value_of_mean_keep,
    value_of_leaf,
    value_of_zeros_like,
    value_of_zeros_single,
    value_of_causal_mask,
    value_of_linear,
    value_of_rms_norm,
    value_of_conv,
    value_of_reshape,
    value_of_narrow,
    value_of_narrow_step,
    value_of_transpose,
    value_of_unsqueeze,
    value_of_flatten_three,
    value_of_cat,
    value_of_repeat_heads,
    value_of_apply,
    value_of_sum_keep,
    value_of_sum,
    value_of_plus,
    value_of_times,
    value_of_pair,
    value_of_rope,
    value_of_collect,
    value_of_scan_items,
    value_of_scan_state,
}

/// The state before the first step.
pub proof fn lemma_state_first<E>(scan: Rc<Scan>, env: World<E>)
    ensures
        state_after(scan, 0, env) == value(&scan.first, env),
{
    reveal(state_after);
    reveal(value);
}

/// The state after one more step.
pub proof fn lemma_state_next<E>(scan: Rc<Scan>, k: nat, env: World<E>)
    ensures
        state_after(scan, k + 1, env) == value(
            &scan.next,
            env.in_step(k as int, state_after(scan, k, env)),
        ),
{
    reveal(state_after);
    reveal(value);
}

/// The items of the steps of a scan, one by one.
pub proof fn lemma_scanned<E>(scan: Rc<Scan>, env: World<E>)
    ensures
        scanned(scan, env).len() == scan.steps,
        forall|i: int|
            0 <= i < scan.steps ==> #[trigger] scanned(scan, env)[i] == value(
                &scan.item,
                env.in_step(i, state_after(scan, i as nat, env)),
            ),
{
    reveal(scanned);
    reveal(state_after);
    reveal(value);
}

/// The values of an item in each step, one by one.
pub proof fn lemma_collected<E>(item: Rc<Node>, steps: nat, env: World<E>)
    ensures
        collected(item, steps, env).len() == steps,
        forall|i: int|
            0 <= i < steps ==> #[trigger] collected(item, steps, env)[i] == value(
                &item,
                env.in_step(i, arbitrary()),
            ),
{
    reveal(collected);
    reveal(value);
}

/// The states of a scan whose first one is closed do not depend on a scan around it.
proof fn lemma_closed_scan<E>(scan: Rc<Scan>, env: World<E>, step: int, carry: Tensor<E>, k: nat)
    requires
        value(&scan.first, env.in_step(step, carry)) == value(&scan.first, env),
    ensures
        state_after(scan, k, env.in_step(step, carry)) == state_after(scan, k, env),
    decreases k,
{
    let inner = env.in_step(step, carry);
    if k == 0 {
        lemma_state_first(scan, env);
        lemma_state_first(scan, inner);
    } else {
        let j = (k - 1) as nat;
        lemma_closed_scan(scan, env, step, carry, j);
        lemma_state_next(scan, j, env);
        lemma_state_next(scan, j, inner);
        let before = state_after(scan, j, env);
        assert(inner.in_step(j as int, before) == env.in_step(j as int, before));
    }
}

/// What a closed formula computes does not depend on the scan it stands in.
pub proof fn lemma_closed<E>(n: &Node, env: World<E>, step: int, carry: Tensor<E>)
    requires
        graph::closed(n),
    ensures
        value(n, env.in_step(step, carry)) == value(n, env),
    decreases n,
{
    reveal(value);
    reveal(graph::closed);
    let inner = env.in_step(step, carry);
    match n {
        Node::Leaf(_) => {},
        Node::ZerosLike { like, .. } => lemma_closed(like, env, step, carry),
        Node::ZerosSingle { .. } | Node::ZerosModel { .. } | Node::CausalMask { .. } => {},
        Node::Embed { ids } => lemma_closed(ids, env, step, carry),
        Node::NarrowStep { .. } => {},
        Node::Linear { x, .. } => lemma_closed(x, env, step, carry),
        Node::RmsNorm { x, .. } => lemma_closed(x, env, step, carry),
        Node::Conv { x } => lemma_closed(x, env, step, carry),
        Node::Reshape { x, .. } => lemma_closed(x, env, step, carry),
        Node::Expand { x, .. } => lemma_closed(x, env, step, carry),
        Node::Narrow { x, .. } => lemma_closed(x, env, step, carry),
        Node::Transpose { x, .. } => lemma_closed(x, env, step, carry),
        Node::Unsqueeze { x, .. } => lemma_closed(x, env, step, carry),
        Node::Select { x, .. } => lemma_closed(x, env, step, carry),
        Node::FlattenThree { x } => lemma_closed(x, env, step, carry),
        Node::RepeatHeads { x, .. } => lemma_closed(x, env, step, carry),
        Node::Apply { x, .. } => lemma_closed(x, env, step, carry),
        Node::SumKeep { x } => lemma_closed(x, env, step, carry),
        Node::MeanKeep { x } => lemma_closed(x, env, step, carry),
        Node::Sum { x, .. } => lemma_closed(x, env, step, carry),
        Node::Plus { x, .. } => lemma_closed(x, env, step, carry),
        Node::Times { x, .. } => lemma_closed(x, env, step, carry),
        Node::Cat { first, second, .. } => {
            lemma_closed(first, env, step, carry);
            lemma_closed(second, env, step, carry);
        },
        Node::Pair { a, b, .. } => {
            lemma_closed(a, env, step, carry);
            lemma_closed(b, env, step, carry);
        },
        Node::Rope { x, cos, sin } => {
            lemma_closed(x, env, step, carry);
            lemma_closed(cos, env, step, carry);
            lemma_closed(sin, env, step, carry);
        },
        Node::Collect { item, steps, dim } => {
            lemma_collected(*item, *steps as nat, env);
            lemma_collected(*item, *steps as nat, inner);
            let (x, y) = (
                collected(*item, *steps as nat, inner),
                collected(*item, *steps as nat, env),
            );
            assert forall|i: int| 0 <= i < *steps implies #[trigger] x[i] == y[i] by {
                assert(inner.in_step(i, arbitrary()) == env.in_step(i, arbitrary()));
            }
            assert(x =~= y);
            value_of_collect(*steps, *dim, *item, env);
            value_of_collect(*steps, *dim, *item, inner);
        },
        Node::ScanItems { scan } => {
            lemma_closed(&scan.first, env, step, carry);
            lemma_scanned(*scan, env);
            lemma_scanned(*scan, inner);
            let (x, y) = (scanned(*scan, inner), scanned(*scan, env));
            assert forall|i: int| 0 <= i < scan.steps implies #[trigger] x[i] == y[i] by {
                lemma_closed_scan(*scan, env, step, carry, i as nat);
                let before = state_after(*scan, i as nat, env);
                assert(inner.in_step(i, before) == env.in_step(i, before));
            }
            assert(x =~= y);
            value_of_scan_items(*scan, env);
            value_of_scan_items(*scan, inner);
        },
        Node::ScanState { scan } => {
            lemma_closed(&scan.first, env, step, carry);
            lemma_closed_scan(*scan, env, step, carry, scan.steps as nat);
            value_of_scan_state(*scan, env);
            value_of_scan_state(*scan, inner);
        },
    }
}

/// An index within a shape is not clipped by it, and only its last entry by the shape of its rows.
pub proof fn lemma_clipped(shape: Seq<nat>, idx: Seq<int>)
    requires
        within(shape, idx),
    ensures
        clipped(shape, idx) == idx,
        shape.len() > 0 ==> {
            let last = shape.len() - 1;
            &&& clipped(shape.update(last, 1), idx) == idx.update(last, 0)
            &&& within(shape.update(last, 1), idx.update(last, 0))
        },
{
    assert(clipped(shape, idx) =~= idx);
    if shape.len() > 0 {
        let last = shape.len() - 1;
        assert(clipped(shape.update(last, 1), idx) =~= idx.update(last, 0));
    }
}

/// Operations on single numbers commute with taking a part.
pub proof fn lemma_mapped_part<E>(x: Tensor<E>, dim: int, off: int, len: nat, f: spec_fn(E) -> E)
    requires
        0 <= dim < x.shape.len(),
        0 <= off,
        off + len <= x.shape[dim],
    ensures
        mapped(narrowed(x, dim, off, len), f) == narrowed(mapped(x, f), dim, off, len),
{
    let l = mapped(narrowed(x, dim, off, len), f);
    let r = narrowed(mapped(x, f), dim, off, len);
    assert forall|idx: Seq<int>| #[trigger] within(l.shape, idx) implies (l.at)(idx) == (r.at)(
        idx,
    ) by {
        assert(within(x.shape, idx.update(dim, idx[dim] + off)));
    }
    lemma_equal(l, r);
}

/// A part of a part.
pub proof fn lemma_part_of_part<E>(x: Tensor<E>, dim: int, off: int, len: nat, k: int, n: nat)
    requires
        0 <= dim < x.shape.len(),
        0 <= off,
        0 <= k,
        k + n <= len,
    ensures
        narrowed(narrowed(x, dim, off, len), dim, k, n) == narrowed(x, dim, off + k, n),
{
    let l = narrowed(narrowed(x, dim, off, len), dim, k, n);
    let r = narrowed(x, dim, off + k, n);
    assert(l.shape =~= r.shape);
    assert forall|idx: Seq<int>| #[trigger] within(l.shape, idx) implies (l.at)(idx) == (r.at)(
        idx,
    ) by {
        let i = idx.update(dim, idx[dim] + k);
        assert(within(x.shape.update(dim, len), i));
        assert(i.update(dim, i[dim] + off) =~= idx.update(dim, idx[dim] + (off + k)));
    }
    lemma_equal(l, r);
}

}
