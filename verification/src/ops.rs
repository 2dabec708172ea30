//! Constructors of formulas, one for each operation.
use crate::graph::{Dims, FloatSetting, Node, Pairwise, Projection, SameShape, Scalar, Scan, Slot};
use std::rc::Rc;
use vstd::prelude::*;

verus! {

/// `Rc::clone` of std: another handle to the same value.
#[verifier::external_body]
fn share<T>(x: &Rc<T>) -> (y: Rc<T>)
    ensures
        y == *x,
{
    x.clone()
}

/// The tensor in a slot.
#[verifier::allow_in_spec]
pub fn leaf(slot: Slot) -> Rc<Node>
    returns
        (Rc::new(Node::Leaf(slot))),
{
    Rc::new(Node::Leaf(slot))
}

/// Zeros in the number format of `like`.
#[verifier::allow_in_spec]
pub fn zeros_like(dims: Dims, like: &Rc<Node>) -> Rc<Node>
    returns
        (Rc::new(Node::ZerosLike { dims, like: *like })),
{
    Rc::new(Node::ZerosLike { dims, like: share(like) })
}

/// Zeros in single precision.
#[verifier::allow_in_spec]
pub fn zeros_single(dims: Dims) -> Rc<Node>
    returns
        (Rc::new(Node::ZerosSingle { dims })),
{
    Rc::new(Node::ZerosSingle { dims })
}

/// Zeros in the number format of the model.
#[verifier::allow_in_spec]
pub fn zeros_model(dims: Dims) -> Rc<Node>
    returns
        (Rc::new(Node::ZerosModel { dims })),
{
    Rc::new(Node::ZerosModel { dims })
}

/// The square mask that hides later positions.
#[verifier::allow_in_spec]
pub fn causal(len: usize) -> Rc<Node>
    returns
        (Rc::new(Node::CausalMask { len })),
{
    Rc::new(Node::CausalMask { len })
}

/// The embedding rows of token ids.
#[verifier::allow_in_spec]
pub fn embed(ids: &Rc<Node>) -> Rc<Node>
    returns
        (Rc::new(Node::Embed { ids: *ids })),
{
    Rc::new(Node::Embed { ids: share(ids) })
}

/// A linear map applied to the last dimension.
#[verifier::allow_in_spec]
pub fn linear(map: Projection, x: &Rc<Node>) -> Rc<Node>
    returns
        (Rc::new(Node::Linear { map, x: *x })),
{
    Rc::new(Node::Linear { map, x: share(x) })
}

/// The norm with the weight in a slot.
#[verifier::allow_in_spec]
pub fn rms_norm(weight: Slot, eps: FloatSetting, x: &Rc<Node>) -> Rc<Node>
    returns
        (Rc::new(Node::RmsNorm { weight, eps, x: *x })),
{
    Rc::new(Node::RmsNorm { weight, eps, x: share(x) })
}

/// The depthwise convolution.
#[verifier::allow_in_spec]
pub fn conv(x: &Rc<Node>) -> Rc<Node>
    returns
        (Rc::new(Node::Conv { x: *x })),
{
    Rc::new(Node::Conv { x: share(x) })
}

/// The same elements in other dimensions.
#[verifier::allow_in_spec]
pub fn reshape(x: &Rc<Node>, dims: Dims) -> Rc<Node>
    returns
        (Rc::new(Node::Reshape { x: *x, dims })),
{
    Rc::new(Node::Reshape { x: share(x), dims })
}

/// `x` broadcast to larger dimensions.
#[verifier::allow_in_spec]
pub fn expand(x: &Rc<Node>, dims: Dims) -> Rc<Node>
    returns
        (Rc::new(Node::Expand { x: *x, dims })),
{
    Rc::new(Node::Expand { x: share(x), dims })
}

/// `len` indices of a dimension, from `start` on.
#[verifier::allow_in_spec]
pub fn narrow(x: &Rc<Node>, dim: usize, start: usize, len: usize) -> Rc<Node>
    returns
        (Rc::new(Node::Narrow { x: *x, dim, start, len })),
{
    Rc::new(Node::Narrow { x: share(x), dim, start, len })
}

/// `len` indices of a dimension, from the number of the step on.
#[verifier::allow_in_spec]
pub fn narrow_step(x: &Rc<Node>, dim: usize, len: usize) -> Rc<Node>
    returns
        (Rc::new(Node::NarrowStep { x: *x, dim, len })),
{
    Rc::new(Node::NarrowStep { x: share(x), dim, len })
}

/// Two dimensions exchanged.
#[verifier::allow_in_spec]
pub fn transpose(x: &Rc<Node>, first: usize, second: usize) -> Rc<Node>
    returns
        (Rc::new(Node::Transpose { x: *x, first, second })),
{
    Rc::new(Node::Transpose { x: share(x), first, second })
}

/// A new dimension of size one at `dim`.
#[verifier::allow_in_spec]
pub fn unsqueeze(x: &Rc<Node>, dim: usize) -> Rc<Node>
    returns
        (Rc::new(Node::Unsqueeze { x: *x, dim })),
{
    Rc::new(Node::Unsqueeze { x: share(x), dim })
}

/// One index of a dimension, which is dropped.
#[verifier::allow_in_spec]
pub fn select(x: &Rc<Node>, dim: usize, index: usize) -> Rc<Node>
    returns
        (Rc::new(Node::Select { x: *x, dim, index })),
{
    Rc::new(Node::Select { x: share(x), dim, index })
}

/// The first three dimensions made one.
#[verifier::allow_in_spec]
pub fn flatten_three(x: &Rc<Node>) -> Rc<Node>
    returns
        (Rc::new(Node::FlattenThree { x: *x })),
{
    Rc::new(Node::FlattenThree { x: share(x) })
}

/// Two tensors, one after the other along `dim`.
#[verifier::allow_in_spec]
pub fn cat(first: &Rc<Node>, second: &Rc<Node>, dim: usize) -> Rc<Node>
    returns
        (Rc::new(Node::Cat { first: *first, second: *second, dim })),
{
    Rc::new(Node::Cat { first: share(first), second: share(second), dim })
}

/// Each head repeated.
#[verifier::allow_in_spec]
pub fn repeat_heads(x: &Rc<Node>, times: usize) -> Rc<Node>
    returns
        (Rc::new(Node::RepeatHeads { x: *x, times })),
{
    Rc::new(Node::RepeatHeads { x: share(x), times })
}

/// An operation that keeps the shape.
#[verifier::allow_in_spec]
pub fn apply(op: SameShape, x: &Rc<Node>) -> Rc<Node>
    returns
        (Rc::new(Node::Apply { op, x: *x })),
{
    Rc::new(Node::Apply { op, x: share(x) })
}

/// The sum over the last dimension, kept with size one.
#[verifier::allow_in_spec]
pub fn sum_keep(x: &Rc<Node>) -> Rc<Node>
    returns
        (Rc::new(Node::SumKeep { x: *x })),
{
    Rc::new(Node::SumKeep { x: share(x) })
}

/// The mean over the last dimension, kept with size one.
#[verifier::allow_in_spec]
pub fn mean_keep(x: &Rc<Node>) -> Rc<Node>
    returns
        (Rc::new(Node::MeanKeep { x: *x })),
{
    Rc::new(Node::MeanKeep { x: share(x) })
}

/// The sum over a dimension, which is dropped.
#[verifier::allow_in_spec]
pub fn sum(x: &Rc<Node>, dim: usize) -> Rc<Node>
    returns
        (Rc::new(Node::Sum { x: *x, dim })),
{
    Rc::new(Node::Sum { x: share(x), dim })
}

/// A scalar added to each element.
#[verifier::allow_in_spec]
pub fn plus(x: &Rc<Node>, scalar: Scalar) -> Rc<Node>
    returns
        (Rc::new(Node::Plus { x: *x, scalar })),
{
    Rc::new(Node::Plus { x: share(x), scalar })
}

/// Each element multiplied by a scalar.
#[verifier::allow_in_spec]
pub fn times(x: &Rc<Node>, scalar: Scalar) -> Rc<Node>
    returns
        (Rc::new(Node::Times { x: *x, scalar })),
{
    Rc::new(Node::Times { x: share(x), scalar })
}

/// An operation on two tensors.
#[verifier::allow_in_spec]
pub fn pair(op: Pairwise, a: &Rc<Node>, b: &Rc<Node>) -> Rc<Node>
    returns
        (Rc::new(Node::Pair { op, a: *a, b: *b })),
{
    Rc::new(Node::Pair { op, a: share(a), b: share(b) })
}

/// The rotary embedding.
#[verifier::allow_in_spec]
pub fn rope(x: &Rc<Node>, cos: &Rc<Node>, sin: &Rc<Node>) -> Rc<Node>
    returns
        (Rc::new(Node::Rope { x: *x, cos: *cos, sin: *sin })),
{
    Rc::new(Node::Rope { x: share(x), cos: share(cos), sin: share(sin) })
}

/// The items of all steps, along `dim`.
#[verifier::allow_in_spec]
pub fn collect(steps: usize, dim: usize, item: &Rc<Node>) -> Rc<Node>
    returns
        (Rc::new(Node::Collect { steps, dim, item: *item })),
{
    Rc::new(Node::Collect { steps, dim, item: share(item) })
}

/// The items of all steps of a scan.
#[verifier::allow_in_spec]
pub fn scan_items(scan: &Rc<Scan>) -> Rc<Node>
    returns
        (Rc::new(Node::ScanItems { scan: *scan })),
{
    Rc::new(Node::ScanItems { scan: share(scan) })
}

/// The state after the last step of a scan.
#[verifier::allow_in_spec]
pub fn scan_state(scan: &Rc<Scan>) -> Rc<Node>
    returns
        (Rc::new(Node::ScanState { scan: *scan })),
{
    Rc::new(Node::ScanState { scan: share(scan) })
}

/// Another handle to a formula.
#[verifier::allow_in_spec]
pub fn same(x: &Rc<Node>) -> Rc<Node>
    returns
        *x,
{
    share(x)
}

/// A scan over `steps` steps.
#[verifier::allow_in_spec]
pub fn scan(
    steps: usize,
    first: &Rc<Node>,
    next: &Rc<Node>,
    item: &Rc<Node>,
    dim: usize,
) -> Rc<Scan>
    returns
        (Rc::new(Scan { steps, first: *first, next: *next, item: *item, dim })),
{
    Rc::new(Scan { steps, first: share(first), next: share(next), item: share(item), dim })
}

}
