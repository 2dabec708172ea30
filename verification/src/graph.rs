//! Tensor computations as data.
//!
//! A [`Node`] is a formula over the tensors of a model. The formulas of the layers are built and
//! reasoned about here; whoever holds the tensors evaluates them, one operation per node.
use std::rc::Rc;
use vstd::prelude::*;

verus! {

/// The tensors that a formula refers to.
#[derive(Debug, Clone, Copy, PartialEq, Eq, Hash, Structural)]
pub enum Slot {
    /// What the formula is applied to.
    Input,
    QueryBias,
    KeyBias,
    ValueBias,
    QueryNorm,
    KeyNorm,
    /// The norm in front of the token mixer.
    MixerNorm,
    /// The norm in front of the feed-forward part.
    MlpNorm,
    /// The norm behind the last layer.
    FinalNorm,
    /// The kernels of the depthwise convolution.
    ConvWeight,
    DtBias,
    /// The logarithms of the decay rates.
    ALog,
    /// The negative decay rates.
    NegativeDecay,
    /// The norm of the gated output of a recurrent layer.
    GatedNorm,
    /// The cosine table of the rotary embedding.
    Cos,
    /// The sine table of the rotary embedding.
    Sin,
    Mask,
    /// The keys and values that a layer has cached.
    CachedKeys,
    CachedValues,
    /// The last inputs of the convolution.
    ConvState,
    RecurrentState,
    /// The state that a scan carries from step to step.
    Carry,
}

/// The linear maps of a model.
#[derive(Debug, Clone, Copy, PartialEq, Eq, Hash, Structural)]
pub enum Projection {
    Query,
    Key,
    Value,
    Output,
    Gate,
    Up,
    Down,
    /// The joint query, key and value map of a recurrent layer.
    MixedQkv,
    /// The output gate of a recurrent layer.
    MixerGate,
    Beta,
    Alpha,
    MixerOutput,
    /// The map to the scores of the vocabulary.
    Head,
}

/// A floating-point setting: a number by its bits, or the default of the setting.
#[derive(Debug, Clone, Copy, PartialEq, Eq, Structural)]
pub enum FloatSetting {
    Double(u64),
    Single(u32),
    Default,
}

/// Scalar constants.
#[derive(Debug, Clone, Copy, PartialEq, Eq, Structural)]
pub enum Scalar {
    One,
    MinusOne,
    /// One millionth.
    Millionth,
    /// What a norm adds to a mean square; one millionth by default.
    Epsilon(FloatSetting),
    /// One over the square root of a dimension.
    InvSqrt(usize),
}

/// Dimensions to reshape to; a hole is filled so that the number of elements is kept.
#[derive(Debug, Clone, Copy, PartialEq, Eq, Structural)]
pub enum Dims {
    Two(usize, usize),
    Three(usize, usize, usize),
    Four(usize, usize, usize, usize),
    Five(usize, usize, usize, usize, usize),
    /// A hole, then one dimension.
    HoleOne(usize),
    /// Two dimensions, then a hole.
    TwoHole(usize, usize),
    /// Two dimensions, a hole, then one dimension.
    TwoHoleOne(usize, usize, usize),
}

/// Operations that keep the shape.
#[derive(Debug, Clone, Copy, PartialEq, Eq, Structural)]
pub enum SameShape {
    Silu,
    Sigmoid,
    /// Softmax over the last dimension.
    Softmax,
    Exp,
    Log,
    Sqr,
    Sqrt,
    Recip,
    /// The activation that the configuration names.
    HiddenAct,
    /// The same values in memory order.
    Contiguous,
    /// In single precision.
    Single,
    /// In single precision where the format is a half-precision one.
    Widen,
    /// In the number format of the model.
    ModelFormat,
}

/// Operations on two tensors.
#[derive(Debug, Clone, Copy, PartialEq, Eq, Structural)]
pub enum Pairwise {
    /// Element by element, on equal shapes.
    Add,
    Sub,
    Mul,
    /// Element by element, after broadcasting.
    BroadcastAdd,
    BroadcastMul,
    MatMul,
    /// The first one in the number format of the second.
    FormatOf,
    /// The first one in the format that the second is widened to.
    WidenedFormatOf,
}

/// A formula over tensors.
#[derive(Debug, PartialEq, Eq)]
#[allow(inconsistent_fields)]
pub enum Node {
    Leaf(Slot),
    /// Zeros in the number format of another tensor.
    ZerosLike { dims: Dims, like: Rc<Node> },
    /// Zeros in single precision.
    ZerosSingle { dims: Dims },
    /// Zeros in the number format of the model.
    ZerosModel { dims: Dims },
    /// Row `i`, column `j`: minus infinity where `j` is after `i`, otherwise zero.
    CausalMask { len: usize },
    /// The embedding rows of token ids.
    Embed { ids: Rc<Node> },
    Linear { map: Projection, x: Rc<Node> },
    /// Normalisation of the last dimension by its root mean square, scaled by a weight.
    RmsNorm { weight: Slot, eps: FloatSetting, x: Rc<Node> },
    /// The depthwise convolution over the last dimension, without padding.
    Conv { x: Rc<Node> },
    Reshape { x: Rc<Node>, dims: Dims },
    Expand { x: Rc<Node>, dims: Dims },
    Narrow { x: Rc<Node>, dim: usize, start: usize, len: usize },
    /// Within a scan: narrowed to `len` from the step's number on.
    NarrowStep { x: Rc<Node>, dim: usize, len: usize },
    Transpose { x: Rc<Node>, first: usize, second: usize },
    Unsqueeze { x: Rc<Node>, dim: usize },
    /// One index of a dimension, which is dropped.
    Select { x: Rc<Node>, dim: usize, index: usize },
    /// The first three dimensions made one.
    FlattenThree { x: Rc<Node> },
    Cat { first: Rc<Node>, second: Rc<Node>, dim: usize },
    /// Each key or value head repeated.
    RepeatHeads { x: Rc<Node>, times: usize },
    Apply { op: SameShape, x: Rc<Node> },
    /// The sum over the last dimension, kept with size one.
    SumKeep { x: Rc<Node> },
    /// The mean over the last dimension, kept with size one.
    MeanKeep { x: Rc<Node> },
    /// The sum over a dimension, which is dropped.
    Sum { x: Rc<Node>, dim: usize },
    Plus { x: Rc<Node>, scalar: Scalar },
    Times { x: Rc<Node>, scalar: Scalar },
    Pair { op: Pairwise, a: Rc<Node>, b: Rc<Node> },
    /// The rotary embedding of `x` with the given tables.
    Rope { x: Rc<Node>, cos: Rc<Node>, sin: Rc<Node> },
    /// The items of all steps, one after the other along `dim`.
    Collect { steps: usize, dim: usize, item: Rc<Node> },
    /// The items of all steps of a scan.
    ScanItems { scan: Rc<Scan> },
    /// The state after the last step of a scan.
    ScanState { scan: Rc<Scan> },
}

/// A computation that carries a state from step to step.
///
/// `next` and `item` refer to the state before the step as [`Slot::Carry`].
#[derive(Debug, PartialEq, Eq)]
pub struct Scan {
    pub steps: usize,
    /// The state before the first step.
    pub first: Rc<Node>,
    /// The state after a step.
    pub next: Rc<Node>,
    /// What a step yields; the items are laid along `dim`.
    pub item: Rc<Node>,
    pub dim: usize,
}

/// The shapes of what a formula refers to.
pub struct Shapes {
    pub leaf: spec_fn(Slot) -> Option<Seq<nat>>,
    /// The input and output widths of the linear maps.
    pub linear: spec_fn(Projection) -> Option<(nat, nat)>,
    /// The channels and the kernel size of the convolution.
    pub conv: (nat, nat),
    /// The width of the embedding.
    pub embedding: nat,
    /// Within a scan, the number of its steps.
    pub steps: nat,
    /// Within a scan, the shape of the state that is carried.
    pub carry: Option<Seq<nat>>,
}

impl Shapes {
    /// Within a scan of `steps` steps whose state has the shape `carry`.
    pub open spec fn within(self, steps: nat, carry: Option<Seq<nat>>) -> Shapes {
        Shapes { steps, carry, ..self }
    }
}

/// The number of elements of a shape.
pub open spec fn elements(s: Seq<nat>) -> nat
    decreases s.len(),
{
    if s.len() == 0 {
        1
    } else {
        elements(s.drop_last()) * s.last()
    }
}

impl Dims {
    /// The dimensions for `count` elements.
    pub open spec fn filled(self, count: nat) -> Option<Seq<nat>> {
        match self {
            Dims::Two(a, b) => Some(seq![a as nat, b as nat]),
            Dims::Three(a, b, c) => Some(seq![a as nat, b as nat, c as nat]),
            Dims::Four(a, b, c, d) => Some(seq![a as nat, b as nat, c as nat, d as nat]),
            Dims::Five(a, b, c, d, e) => Some(
                seq![a as nat, b as nat, c as nat, d as nat, e as nat],
            ),
            Dims::HoleOne(a) => match hole(count, a as nat) {
                Some(h) => Some(seq![h, a as nat]),
                None => None,
            },
            Dims::TwoHole(a, b) => match hole(count, (a * b) as nat) {
                Some(h) => Some(seq![a as nat, b as nat, h]),
                None => None,
            },
            Dims::TwoHoleOne(a, b, c) => match hole(count, (a * b * c) as nat) {
                Some(h) => Some(seq![a as nat, b as nat, h, c as nat]),
                None => None,
            },
        }
    }
}

/// What fills a hole beside dimensions of `known` elements.
pub open spec fn hole(count: nat, known: nat) -> Option<nat> {
    if known > 0 && count % known == 0 {
        Some(count / known)
    } else {
        None
    }
}

pub open spec fn reshaped(s: Option<Seq<nat>>, dims: Dims) -> Option<Seq<nat>> {
    match s {
        Some(d) => match dims.filled(elements(d)) {
            Some(f) => if elements(f) == elements(d) {
                Some(f)
            } else {
                None
            },
            None => None,
        },
        None => None,
    }
}

/// A shape whose dimensions of size one, or missing in front, may grow.
pub open spec fn expands_to(s: Seq<nat>, to: Seq<nat>) -> bool {
    &&& s.len() <= to.len()
    &&& forall|i: int|
        0 <= i < s.len() ==> (#[trigger] s[i] == 1 || s[i] == to[i + to.len() - s.len()])
}

pub open spec fn expanded(s: Option<Seq<nat>>, dims: Dims) -> Option<Seq<nat>> {
    match (s, dims.filled(0)) {
        (Some(d), Some(to)) => if expands_to(d, to) {
            Some(to)
        } else {
            None
        },
        _ => None,
    }
}

pub open spec fn narrowed(s: Option<Seq<nat>>, dim: int, last_start: int, len: nat) -> Option<
    Seq<nat>,
> {
    match s {
        Some(d) => if 0 <= dim < d.len() && last_start + len <= d[dim] {
            Some(d.update(dim, len))
        } else {
            None
        },
        None => None,
    }
}

pub open spec fn transposed(s: Option<Seq<nat>>, a: int, b: int) -> Option<Seq<nat>> {
    match s {
        Some(d) => if 0 <= a < d.len() && 0 <= b < d.len() {
            Some(d.update(a, d[b]).update(b, d[a]))
        } else {
            None
        },
        None => None,
    }
}

/// `s` with its last dimension changed from `from` to `to`.
pub open spec fn last_changed(s: Option<Seq<nat>>, from: nat, to: nat) -> Option<Seq<nat>> {
    match s {
        Some(d) => if d.len() > 0 && d.last() == from {
            Some(d.update(d.len() - 1, to))
        } else {
            None
        },
        None => None,
    }
}

/// `s` with its last dimension made one.
pub open spec fn last_kept(s: Option<Seq<nat>>) -> Option<Seq<nat>> {
    match s {
        Some(d) => if d.len() > 0 {
            Some(d.update(d.len() - 1, 1))
        } else {
            None
        },
        None => None,
    }
}

/// `s` without the dimension `dim`.
pub open spec fn dropped(s: Option<Seq<nat>>, dim: int) -> Option<Seq<nat>> {
    match s {
        Some(d) => if 0 <= dim < d.len() {
            Some(d.remove(dim))
        } else {
            None
        },
        None => None,
    }
}

/// The dimension of `s` that is broadcast to position `i` of `rank` dimensions.
pub open spec fn aligned(s: Seq<nat>, rank: int, i: int) -> nat {
    if i < rank - s.len() {
        1
    } else {
        s[i - (rank - s.len())]
    }
}

pub open spec fn broadcast_dim(a: nat, b: nat) -> nat {
    if a == 1 {
        b
    } else {
        a
    }
}

pub open spec fn common_rank(a: Seq<nat>, b: Seq<nat>) -> nat {
    if a.len() >= b.len() {
        a.len()
    } else {
        b.len()
    }
}

/// The common shape of two shapes after broadcasting.
pub open spec fn broadcast(a: Seq<nat>, b: Seq<nat>) -> Option<Seq<nat>> {
    let rank = common_rank(a, b);
    if forall|i: int|
        0 <= i < rank ==> {
            ||| #[trigger] aligned(a, rank as int, i) == aligned(b, rank as int, i)
            ||| aligned(a, rank as int, i) == 1
            ||| aligned(b, rank as int, i) == 1
        } {
        Some(
            Seq::new(
                rank,
                |i: int| broadcast_dim(aligned(a, rank as int, i), aligned(b, rank as int, i)),
            ),
        )
    } else {
        None
    }
}

/// The shape of a product of matrices, the dimensions in front of them being equal.
pub open spec fn product(a: Seq<nat>, b: Seq<nat>) -> Option<Seq<nat>> {
    let n = a.len();
    if n >= 2 && b.len() == n && a.take(n - 2) == b.take(n - 2) && a[n - 1] == b[n - 2] {
        Some(a.update(n - 1, b[n - 1]))
    } else {
        None
    }
}

pub open spec fn paired(op: Pairwise, a: Option<Seq<nat>>, b: Option<Seq<nat>>) -> Option<Seq<nat>> {
    match (a, b) {
        (Some(x), Some(y)) => match op {
            Pairwise::Add | Pairwise::Sub | Pairwise::Mul => if x == y {
                Some(x)
            } else {
                None
            },
            Pairwise::BroadcastAdd | Pairwise::BroadcastMul => broadcast(x, y),
            Pairwise::MatMul => product(x, y),
            Pairwise::FormatOf | Pairwise::WidenedFormatOf => Some(x),
        },
        _ => None,
    }
}

pub open spec fn concatenated(a: Option<Seq<nat>>, b: Option<Seq<nat>>, dim: int) -> Option<
    Seq<nat>,
> {
    match (a, b) {
        (Some(x), Some(y)) => if 0 <= dim < x.len() && x.len() == y.len() && y.update(dim, x[dim])
            == x {
            Some(x.update(dim, x[dim] + y[dim]))
        } else {
            None
        },
        _ => None,
    }
}

/// The shape of `steps` items of shape `s`, laid along `dim`.
pub open spec fn collected(s: Option<Seq<nat>>, steps: nat, dim: int) -> Option<Seq<nat>> {
    match s {
        Some(d) => if steps > 0 && 0 <= dim < d.len() {
            Some(d.update(dim, steps * d[dim]))
        } else {
            None
        },
        None => None,
    }
}

/// The shape of a rotary embedding: tables of at least as many rows as positions, and of half as
/// many columns as the last dimension has.
pub open spec fn rotated(
    x: Option<Seq<nat>>,
    cos: Option<Seq<nat>>,
    sin: Option<Seq<nat>>,
) -> Option<Seq<nat>> {
    match (x, cos, sin) {
        (Some(d), Some(c), Some(s)) => if d.len() == 4 && c.len() == 2 && s.len() == 2 && d[2]
            <= c[0] && d[2] <= s[0] && 2 * c[1] == d[3] && 2 * s[1] == d[3] {
            Some(d)
        } else {
            None
        },
        _ => None,
    }
}

/// The shape of what a formula computes; `None` where an operation does not fit the shapes of its
/// operands. How tensors lie in memory is not considered.
#[verifier::opaque]
pub open spec fn shape(n: &Node, env: Shapes) -> Option<Seq<nat>>
    decreases n,
{
    match *n {
        Node::Leaf(slot) => if slot == Slot::Carry {
            env.carry
        } else {
            (env.leaf)(slot)
        },
        Node::ZerosLike { dims, like } => if shape(&like, env) is Some {
            dims.filled(0)
        } else {
            None
        },
        Node::ZerosSingle { dims } => dims.filled(0),
        Node::ZerosModel { dims } => dims.filled(0),
        Node::CausalMask { len } => Some(seq![len as nat, len as nat]),
        Node::Embed { ids } => match shape(&ids, env) {
            Some(d) => Some(d.push(env.embedding)),
            None => None,
        },
        Node::Linear { map, x } => match (env.linear)(map) {
            Some(widths) => last_changed(shape(&x, env), widths.0, widths.1),
            None => None,
        },
        Node::RmsNorm { weight, eps, x } => match (env.leaf)(weight) {
            Some(w) => if w.len() == 1 {
                last_changed(shape(&x, env), w[0], w[0])
            } else {
                None
            },
            None => None,
        },
        Node::Conv { x } => match shape(&x, env) {
            Some(d) => if d.len() == 3 && d[1] == env.conv.0 && env.conv.1 <= d[2] {
                Some(d.update(2, (d[2] - env.conv.1 + 1) as nat))
            } else {
                None
            },
            None => None,
        },
        Node::Reshape { x, dims } => reshaped(shape(&x, env), dims),
        Node::Expand { x, dims } => expanded(shape(&x, env), dims),
        Node::Narrow { x, dim, start, len } => narrowed(
            shape(&x, env),
            dim as int,
            start as int,
            len as nat,
        ),
        Node::NarrowStep { x, dim, len } => narrowed(
            shape(&x, env),
            dim as int,
            env.steps - 1,
            len as nat,
        ),
        Node::Transpose { x, first, second } => transposed(
            shape(&x, env),
            first as int,
            second as int,
        ),
        Node::Unsqueeze { x, dim } => match shape(&x, env) {
            Some(d) => if dim <= d.len() {
                Some(d.insert(dim as int, 1))
            } else {
                None
            },
            None => None,
        },
        Node::Select { x, dim, index } => dropped(
            narrowed(shape(&x, env), dim as int, index as int, 1),
            dim as int,
        ),
        Node::FlattenThree { x } => match shape(&x, env) {
            Some(d) => if d.len() >= 3 {
                Some(seq![elements(d.take(3))] + d.skip(3))
            } else {
                None
            },
            None => None,
        },
        Node::Cat { first, second, dim } => concatenated(
            shape(&first, env),
            shape(&second, env),
            dim as int,
        ),
        Node::RepeatHeads { x, times } => match shape(&x, env) {
            Some(d) => if d.len() == 4 {
                Some(d.update(1, d[1] * times as nat))
            } else {
                None
            },
            None => None,
        },
        Node::Apply { op, x } => shape(&x, env),
        Node::SumKeep { x } => last_kept(shape(&x, env)),
        Node::MeanKeep { x } => last_kept(shape(&x, env)),
        Node::Sum { x, dim } => dropped(shape(&x, env), dim as int),
        Node::Plus { x, scalar } => shape(&x, env),
        Node::Times { x, scalar } => shape(&x, env),
        Node::Pair { op, a, b } => paired(op, shape(&a, env), shape(&b, env)),
        Node::Rope { x, cos, sin } => rotated(
            shape(&x, env),
            shape(&cos, env),
            shape(&sin, env),
        ),
        Node::Collect { steps, dim, item } => collected(
            shape(&item, env.within(steps as nat, None)),
            steps as nat,
            dim as int,
        ),
        Node::ScanItems { scan } => {
            let first = shape(&scan.first, env);
            let inner = env.within(scan.steps as nat, first);
            if first is Some && shape(&scan.next, inner) == first {
                collected(shape(&scan.item, inner), scan.steps as nat, scan.dim as int)
            } else {
                None
            }
        },
        Node::ScanState { scan } => {
            let first = shape(&scan.first, env);
            let inner = env.within(scan.steps as nat, first);
            if first is Some && shape(&scan.next, inner) == first {
                first
            } else {
                None
            }
        },
    }
}

/// Whether a formula means the same within a scan as outside of it.
#[verifier::opaque]
pub open spec fn closed(n: &Node) -> bool
    decreases n,
{
    match *n {
        Node::Leaf(slot) => slot != Slot::Carry,
        Node::ZerosLike { like, .. } => closed(&like),
        Node::ZerosSingle { .. } | Node::ZerosModel { .. } | Node::CausalMask { .. } => true,
        Node::Embed { ids } => closed(&ids),
        Node::Linear { x, .. } => closed(&x),
        Node::RmsNorm { x, .. } => closed(&x),
        Node::Conv { x } => closed(&x),
        Node::Reshape { x, .. } => closed(&x),
        Node::Expand { x, .. } => closed(&x),
        Node::Narrow { x, .. } => closed(&x),
        Node::NarrowStep { .. } => false,
        Node::Transpose { x, .. } => closed(&x),
        Node::Unsqueeze { x, .. } => closed(&x),
        Node::Select { x, .. } => closed(&x),
        Node::FlattenThree { x } => closed(&x),
        Node::Cat { first, second, .. } => closed(&first) && closed(&second),
        Node::RepeatHeads { x, .. } => closed(&x),
        Node::Apply { x, .. } => closed(&x),
        Node::SumKeep { x } => closed(&x),
        Node::MeanKeep { x } => closed(&x),
        Node::Sum { x, .. } => closed(&x),
        Node::Plus { x, .. } => closed(&x),
        Node::Times { x, .. } => closed(&x),
        Node::Pair { a, b, .. } => closed(&a) && closed(&b),
        Node::Rope { x, cos, sin } => closed(&x) && closed(&cos) && closed(&sin),
        Node::Collect { .. } => true,
        Node::ScanItems { scan } => closed(&scan.first),
        Node::ScanState { scan } => closed(&scan.first),
    }
}

/// The shape of a closed formula does not depend on the scan it stands in.
pub proof fn lemma_closed(n: &Node, env: Shapes, steps: nat, carry: Option<Seq<nat>>)
    requires
        closed(n),
    ensures
        shape(n, env.within(steps, carry)) == shape(n, env),
    decreases n,
{
    reveal(shape);
    reveal(closed);
    match n {
        Node::Leaf(_) => {},
        Node::ZerosLike { like, .. } => lemma_closed(like, env, steps, carry),
        Node::ZerosSingle { .. } => {},
        Node::ZerosModel { .. } => {},
        Node::CausalMask { .. } => {},
        Node::Embed { ids } => lemma_closed(ids, env, steps, carry),
        Node::Linear { x, .. } => lemma_closed(x, env, steps, carry),
        Node::RmsNorm { x, .. } => lemma_closed(x, env, steps, carry),
        Node::Conv { x } => lemma_closed(x, env, steps, carry),
        Node::Reshape { x, .. } => lemma_closed(x, env, steps, carry),
        Node::Expand { x, .. } => lemma_closed(x, env, steps, carry),
        Node::Narrow { x, .. } => lemma_closed(x, env, steps, carry),
        Node::NarrowStep { .. } => {},
        Node::Transpose { x, .. } => lemma_closed(x, env, steps, carry),
        Node::Unsqueeze { x, .. } => lemma_closed(x, env, steps, carry),
        Node::Select { x, .. } => lemma_closed(x, env, steps, carry),
        Node::FlattenThree { x } => lemma_closed(x, env, steps, carry),
        Node::Cat { first, second, .. } => {
            lemma_closed(first, env, steps, carry);
            lemma_closed(second, env, steps, carry);
        },
        Node::RepeatHeads { x, .. } => lemma_closed(x, env, steps, carry),
        Node::Apply { x, .. } => lemma_closed(x, env, steps, carry),
        Node::SumKeep { x } => lemma_closed(x, env, steps, carry),
        Node::MeanKeep { x } => lemma_closed(x, env, steps, carry),
        Node::Sum { x, .. } => lemma_closed(x, env, steps, carry),
        Node::Plus { x, .. } => lemma_closed(x, env, steps, carry),
        Node::Times { x, .. } => lemma_closed(x, env, steps, carry),
        Node::Pair { a, b, .. } => {
            lemma_closed(a, env, steps, carry);
            lemma_closed(b, env, steps, carry);
        },
        Node::Rope { x, cos, sin } => {
            lemma_closed(x, env, steps, carry);
            lemma_closed(cos, env, steps, carry);
            lemma_closed(sin, env, steps, carry);
        },
        Node::Collect { steps: n_steps, item, .. } => {
            assert(env.within(steps, carry).within(n_steps as nat, None) == env.within(
                n_steps as nat,
                None,
            ));
        },
        Node::ScanItems { scan } => {
            lemma_closed(&scan.first, env, steps, carry);
            let first = shape(&scan.first, env);
            assert(env.within(steps, carry).within(scan.steps as nat, first) == env.within(
                scan.steps as nat,
                first,
            ));
        },
        Node::ScanState { scan } => {
            lemma_closed(&scan.first, env, steps, carry);
            let first = shape(&scan.first, env);
            assert(env.within(steps, carry).within(scan.steps as nat, first) == env.within(
                scan.steps as nat,
                first,
            ));
        },
    }
}


pub broadcast proof fn shape_of_leaf(slot: Slot, env: Shapes)
    ensures
        (#[trigger] shape(&Node::Leaf(slot), env)) == (if slot == Slot::Carry {
            env.carry
        } else {
            (env.leaf)(slot)
        }),
{
    reveal(shape);
}

pub broadcast proof fn shape_of_zeros_like(dims: Dims, like: Rc<Node>, env: Shapes)
    ensures
        (#[trigger] shape(&Node::ZerosLike { dims, like }, env)) == (if shape(&like, env) is Some {
            dims.filled(0)
        } else {
            None
        }),
{
    reveal(shape);
}

pub broadcast proof fn shape_of_zeros_single(dims: Dims, env: Shapes)
    ensures
        (#[trigger] shape(&Node::ZerosSingle { dims }, env)) == (dims.filled(0)),
{
    reveal(shape);
}

pub broadcast proof fn shape_of_zeros_model(dims: Dims, env: Shapes)
    ensures
        (#[trigger] shape(&Node::ZerosModel { dims }, env)) == (dims.filled(0)),
{
    reveal(shape);
}

pub broadcast proof fn shape_of_causal_mask(len: usize, env: Shapes)
    ensures
        (#[trigger] shape(&Node::CausalMask { len }, env)) == (Some(seq![len as nat, len as nat])),
{
    reveal(shape);
}

pub broadcast proof fn shape_of_embed(ids: Rc<Node>, env: Shapes)
    ensures
        (#[trigger] shape(&Node::Embed { ids }, env)) == (match shape(&ids, env) {
            Some(d) => Some(d.push(env.embedding)),
            None => None,
        }),
{
    reveal(shape);
}

pub broadcast proof fn shape_of_linear(map: Projection, x: Rc<Node>, env: Shapes)
    ensures
        (#[trigger] shape(&Node::Linear { map, x }, env)) == (match (env.linear)(map) {
            Some(widths) => last_changed(shape(&x, env), widths.0, widths.1),
            None => None,
        }),
{
    reveal(shape);
}

pub broadcast proof fn shape_of_rms_norm(
    weight: Slot,
    eps: FloatSetting,
    x: Rc<Node>,
    env: Shapes,
)
    ensures
        (#[trigger] shape(&Node::RmsNorm { weight, eps, x }, env)) == (match (env.leaf)(weight) {
            Some(w) => if w.len() == 1 {
                last_changed(shape(&x, env), w[0], w[0])
            } else {
                None
            },
            None => None,
        }),
{
    reveal(shape);
}

pub broadcast proof fn shape_of_conv(x: Rc<Node>, env: Shapes)
    ensures
        (#[trigger] shape(&Node::Conv { x }, env)) == (match shape(&x, env) {
            Some(d) => if d.len() == 3 && d[1] == env.conv.0 && env.conv.1 <= d[2] {
                Some(d.update(2, (d[2] - env.conv.1 + 1) as nat))
            } else {
                None
            },
            None => None,
        }),
{
    reveal(shape);
}

pub broadcast proof fn shape_of_reshape(x: Rc<Node>, dims: Dims, env: Shapes)
    ensures
        (#[trigger] shape(&Node::Reshape { x, dims }, env)) == (reshaped(shape(&x, env), dims)),
{
    reveal(shape);
}

pub broadcast proof fn shape_of_expand(x: Rc<Node>, dims: Dims, env: Shapes)
    ensures
        (#[trigger] shape(&Node::Expand { x, dims }, env)) == (expanded(shape(&x, env), dims)),
{
    reveal(shape);
}

pub broadcast proof fn shape_of_narrow(x: Rc<Node>, dim: usize, start: usize, len: usize, env: Shapes)
    ensures
        (#[trigger] shape(&Node::Narrow { x, dim, start, len }, env)) == (narrowed(
            shape(&x, env),
            dim as int,
            start as int,
            len as nat,
        )),
{
    reveal(shape);
}

pub broadcast proof fn shape_of_narrow_step(x: Rc<Node>, dim: usize, len: usize, env: Shapes)
    ensures
        (#[trigger] shape(&Node::NarrowStep { x, dim, len }, env)) == (narrowed(
            shape(&x, env),
            dim as int,
            env.steps - 1,
            len as nat,
        )),
{
    reveal(shape);
}

pub broadcast proof fn shape_of_transpose(x: Rc<Node>, first: usize, second: usize, env: Shapes)
    ensures
        (#[trigger] shape(&Node::Transpose { x, first, second }, env)) == (transposed(
            shape(&x, env),
            first as int,
            second as int,
        )),
{
    reveal(shape);
}

pub broadcast proof fn shape_of_unsqueeze(x: Rc<Node>, dim: usize, env: Shapes)
    ensures
        (#[trigger] shape(&Node::Unsqueeze { x, dim }, env)) == (match shape(&x, env) {
            Some(d) => if dim <= d.len() {
                Some(d.insert(dim as int, 1))
            } else {
                None
            },
            None => None,
        }),
{
    reveal(shape);
}

pub broadcast proof fn shape_of_select(x: Rc<Node>, dim: usize, index: usize, env: Shapes)
    ensures
        (#[trigger] shape(&Node::Select { x, dim, index }, env)) == (dropped(
            narrowed(shape(&x, env), dim as int, index as int, 1),
            dim as int,
        )),
{
    reveal(shape);
}

pub broadcast proof fn shape_of_flatten_three(x: Rc<Node>, env: Shapes)
    ensures
        (#[trigger] shape(&Node::FlattenThree { x }, env)) == (match shape(&x, env) {
            Some(d) => if d.len() >= 3 {
                Some(seq![elements(d.take(3))] + d.skip(3))
            } else {
                None
            },
            None => None,
        }),
{
    reveal(shape);
}

pub broadcast proof fn shape_of_cat(first: Rc<Node>, second: Rc<Node>, dim: usize, env: Shapes)
    ensures
        (#[trigger] shape(&Node::Cat { first, second, dim }, env)) == (concatenated(
            shape(&first, env),
            shape(&second, env),
            dim as int,
        )),
{
    reveal(shape);
}

pub broadcast proof fn shape_of_repeat_heads(x: Rc<Node>, times: usize, env: Shapes)
    ensures
        (#[trigger] shape(&Node::RepeatHeads { x, times }, env)) == (match shape(&x, env) {
            Some(d) => if d.len() == 4 {
                Some(d.update(1, d[1] * times as nat))
            } else {
                None
            },
            None => None,
        }),
{
    reveal(shape);
}

pub broadcast proof fn shape_of_apply(op: SameShape, x: Rc<Node>, env: Shapes)
    ensures
        (#[trigger] shape(&Node::Apply { op, x }, env)) == (shape(&x, env)),
{
    reveal(shape);
}

pub broadcast proof fn shape_of_sum_keep(x: Rc<Node>, env: Shapes)
    ensures
        (#[trigger] shape(&Node::SumKeep { x }, env)) == (last_kept(shape(&x, env))),
{
    reveal(shape);
}

pub broadcast proof fn shape_of_mean_keep(x: Rc<Node>, env: Shapes)
    ensures
        (#[trigger] shape(&Node::MeanKeep { x }, env)) == (last_kept(shape(&x, env))),
{
    reveal(shape);
}

pub broadcast proof fn shape_of_sum(x: Rc<Node>, dim: usize, env: Shapes)
    ensures
        (#[trigger] shape(&Node::Sum { x, dim }, env)) == (dropped(shape(&x, env), dim as int)),
{
    reveal(shape);
}

pub broadcast proof fn shape_of_plus(x: Rc<Node>, scalar: Scalar, env: Shapes)
    ensures
        (#[trigger] shape(&Node::Plus { x, scalar }, env)) == (shape(&x, env)),
{
    reveal(shape);
}

pub broadcast proof fn shape_of_times(x: Rc<Node>, scalar: Scalar, env: Shapes)
    ensures
        (#[trigger] shape(&Node::Times { x, scalar }, env)) == (shape(&x, env)),
{
    reveal(shape);
}

pub broadcast proof fn shape_of_pair(op: Pairwise, a: Rc<Node>, b: Rc<Node>, env: Shapes)
    ensures
        (#[trigger] shape(&Node::Pair { op, a, b }, env)) == (paired(op, shape(&a, env), shape(&b, env))),
{
    reveal(shape);
}

pub broadcast proof fn shape_of_rope(x: Rc<Node>, cos: Rc<Node>, sin: Rc<Node>, env: Shapes)
    ensures
        (#[trigger] shape(&Node::Rope { x, cos, sin }, env)) == (rotated(
            shape(&x, env),
            shape(&cos, env),
            shape(&sin, env),
        )),
{
    reveal(shape);
}

pub broadcast proof fn shape_of_collect(steps: usize, dim: usize, item: Rc<Node>, env: Shapes)
    ensures
        (#[trigger] shape(&Node::Collect { steps, dim, item }, env)) == (collected(
            shape(&item, env.within(steps as nat, None)),
            steps as nat,
            dim as int,
        )),
{
    reveal(shape);
}

pub broadcast proof fn shape_of_scan_items(scan: Rc<Scan>, env: Shapes)
    ensures
        (#[trigger] shape(&Node::ScanItems { scan }, env)) == ({
            let first = shape(&scan.first, env);
            let inner = env.within(scan.steps as nat, first);
            if first is Some && shape(&scan.next, inner) == first {
                collected(shape(&scan.item, inner), scan.steps as nat, scan.dim as int)
            } else {
                None
            }
        }),
{
    reveal(shape);
}

pub broadcast proof fn shape_of_scan_state(scan: Rc<Scan>, env: Shapes)
    ensures
        (#[trigger] shape(&Node::ScanState { scan }, env)) == ({
            let first = shape(&scan.first, env);
            let inner = env.within(scan.steps as nat, first);
            if first is Some && shape(&scan.next, inner) == first {
                first
            } else {
                None
            }
        }),
{
    reveal(shape);
}

pub broadcast proof fn closed_of_leaf(slot: Slot)
    ensures
        (#[trigger] closed(&Node::Leaf(slot))) == (slot != Slot::Carry),
{
    reveal(closed);
}

pub broadcast proof fn closed_of_zeros_like(dims: Dims, like: Rc<Node>)
    ensures
        (#[trigger] closed(&Node::ZerosLike { dims, like })) == (closed(&like)),
{
    reveal(closed);
}

pub broadcast proof fn closed_of_zeros_single(dims: Dims)
    ensures
        (#[trigger] closed(&Node::ZerosSingle { dims })) == (true),
{
    reveal(closed);
}

pub broadcast proof fn closed_of_zeros_model(dims: Dims)
    ensures
        (#[trigger] closed(&Node::ZerosModel { dims })) == (true),
{
    reveal(closed);
}

pub broadcast proof fn closed_of_causal_mask(len: usize)
    ensures
        (#[trigger] closed(&Node::CausalMask { len })) == (true),
{
    reveal(closed);
}

pub broadcast proof fn closed_of_embed(ids: Rc<Node>)
    ensures
        (#[trigger] closed(&Node::Embed { ids })) == (closed(&ids)),
{
    reveal(closed);
}

pub broadcast proof fn closed_of_linear(map: Projection, x: Rc<Node>)
    ensures
        (#[trigger] closed(&Node::Linear { map, x })) == (closed(&x)),
{
    reveal(closed);
}

pub broadcast proof fn closed_of_rms_norm(weight: Slot, eps: FloatSetting, x: Rc<Node>)
    ensures
        (#[trigger] closed(&Node::RmsNorm { weight, eps, x })) == (closed(&x)),
{
    reveal(closed);
}

pub broadcast proof fn closed_of_conv(x: Rc<Node>)
    ensures
        (#[trigger] closed(&Node::Conv { x })) == (closed(&x)),
{
    reveal(closed);
}

pub broadcast proof fn closed_of_reshape(x: Rc<Node>, dims: Dims)
    ensures
        (#[trigger] closed(&Node::Reshape { x, dims })) == (closed(&x)),
{
    reveal(closed);
}

pub broadcast proof fn closed_of_expand(x: Rc<Node>, dims: Dims)
    ensures
        (#[trigger] closed(&Node::Expand { x, dims })) == (closed(&x)),
{
    reveal(closed);
}

pub broadcast proof fn closed_of_narrow(x: Rc<Node>, dim: usize, start: usize, len: usize)
    ensures
        (#[trigger] closed(&Node::Narrow { x, dim, start, len })) == (closed(&x)),
{
    reveal(closed);
}

pub broadcast proof fn closed_of_narrow_step(x: Rc<Node>, dim: usize, len: usize)
    ensures
        (#[trigger] closed(&Node::NarrowStep { x, dim, len })) == (false),
{
    reveal(closed);
}

pub broadcast proof fn closed_of_transpose(x: Rc<Node>, first: usize, second: usize)
    ensures
        (#[trigger] closed(&Node::Transpose { x, first, second })) == (closed(&x)),
{
    reveal(closed);
}

pub broadcast proof fn closed_of_unsqueeze(x: Rc<Node>, dim: usize)
    ensures
        (#[trigger] closed(&Node::Unsqueeze { x, dim })) == (closed(&x)),
{
    reveal(closed);
}

pub broadcast proof fn closed_of_select(x: Rc<Node>, dim: usize, index: usize)
    ensures
        (#[trigger] closed(&Node::Select { x, dim, index })) == (closed(&x)),
{
    reveal(closed);
}

pub broadcast proof fn closed_of_flatten_three(x: Rc<Node>)
    ensures
        (#[trigger] closed(&Node::FlattenThree { x })) == (closed(&x)),
{
    reveal(closed);
}

pub broadcast proof fn closed_of_cat(first: Rc<Node>, second: Rc<Node>, dim: usize)
    ensures
        (#[trigger] closed(&Node::Cat { first, second, dim })) == (closed(&first) && closed(&second)),
{
    reveal(closed);
}

pub broadcast proof fn closed_of_repeat_heads(x: Rc<Node>, times: usize)
    ensures
        (#[trigger] closed(&Node::RepeatHeads { x, times })) == (closed(&x)),
{
    reveal(closed);
}

pub broadcast proof fn closed_of_apply(op: SameShape, x: Rc<Node>)
    ensures
        (#[trigger] closed(&Node::Apply { op, x })) == (closed(&x)),
{
    reveal(closed);
}

pub broadcast proof fn closed_of_sum_keep(x: Rc<Node>)
    ensures
        (#[trigger] closed(&Node::SumKeep { x })) == (closed(&x)),
{
    reveal(closed);
}

pub broadcast proof fn closed_of_mean_keep(x: Rc<Node>)
    ensures
        (#[trigger] closed(&Node::MeanKeep { x })) == (closed(&x)),
{
    reveal(closed);
}

pub broadcast proof fn closed_of_sum(x: Rc<Node>, dim: usize)
    ensures
        (#[trigger] closed(&Node::Sum { x, dim })) == (closed(&x)),
{
    reveal(closed);
}

pub broadcast proof fn closed_of_plus(x: Rc<Node>, scalar: Scalar)
    ensures
        (#[trigger] closed(&Node::Plus { x, scalar })) == (closed(&x)),
{
    reveal(closed);
}

pub broadcast proof fn closed_of_times(x: Rc<Node>, scalar: Scalar)
    ensures
        (#[trigger] closed(&Node::Times { x, scalar })) == (closed(&x)),
{
    reveal(closed);
}

pub broadcast proof fn closed_of_pair(op: Pairwise, a: Rc<Node>, b: Rc<Node>)
    ensures
        (#[trigger] closed(&Node::Pair { op, a, b })) == (closed(&a) && closed(&b)),
{
    reveal(closed);
}

pub broadcast proof fn closed_of_rope(x: Rc<Node>, cos: Rc<Node>, sin: Rc<Node>)
    ensures
        (#[trigger] closed(&Node::Rope { x, cos, sin })) == (closed(&x) && closed(&cos) && closed(&sin)),
{
    reveal(closed);
}

pub broadcast proof fn closed_of_collect(steps: usize, dim: usize, item: Rc<Node>)
    ensures
        (#[trigger] closed(&Node::Collect { steps, dim, item })) == (true),
{
    reveal(closed);
}

pub broadcast proof fn closed_of_scan_items(scan: Rc<Scan>)
    ensures
        (#[trigger] closed(&Node::ScanItems { scan })) == (closed(&scan.first)),
{
    reveal(closed);
}

pub broadcast proof fn closed_of_scan_state(scan: Rc<Scan>)
    ensures
        (#[trigger] closed(&Node::ScanState { scan })) == (closed(&scan.first)),
{
    reveal(closed);
}

/// The shape of each operation, from the shapes of its operands.
pub broadcast group group_shape {
    shape_of_leaf,
    shape_of_zeros_like,
    shape_of_zeros_single,
    shape_of_zeros_model,
    shape_of_causal_mask,
    shape_of_embed,
    shape_of_linear,
    shape_of_rms_norm,
    shape_of_conv,
    shape_of_reshape,
    shape_of_expand,
    shape_of_narrow,
    shape_of_narrow_step,
    shape_of_transpose,
    shape_of_unsqueeze,
    shape_of_select,
    shape_of_flatten_three,
    shape_of_cat,
    shape_of_repeat_heads,
    shape_of_apply,
    shape_of_sum_keep,
    shape_of_mean_keep,
    shape_of_sum,
    shape_of_plus,
    shape_of_times,
    shape_of_pair,
    shape_of_rope,
    shape_of_collect,
    shape_of_scan_items,
    shape_of_scan_state,
}

/// What closes each operation, from its operands.
pub broadcast group group_closed {
    closed_of_leaf,
    closed_of_zeros_like,
    closed_of_zeros_single,
    closed_of_zeros_model,
    closed_of_causal_mask,
    closed_of_embed,
    closed_of_linear,
    closed_of_rms_norm,
    closed_of_conv,
    closed_of_reshape,
    closed_of_expand,
    closed_of_narrow,
    closed_of_narrow_step,
    closed_of_transpose,
    closed_of_unsqueeze,
    closed_of_select,
    closed_of_flatten_three,
    closed_of_cat,
    closed_of_repeat_heads,
    closed_of_apply,
    closed_of_sum_keep,
    closed_of_mean_keep,
    closed_of_sum,
    closed_of_plus,
    closed_of_times,
    closed_of_pair,
    closed_of_rope,
    closed_of_collect,
    closed_of_scan_items,
    closed_of_scan_state,
}

/// The entries of the causal mask of `len` positions, row by row: whether a column is after its
/// row.
pub fn later_positions(len: usize) -> (r: Vec<bool>)
    requires
        len * len <= usize::MAX,
    ensures
        r@.len() == len * len,
        forall|i: int, j: int|
            0 <= i < len && 0 <= j < len ==> #[trigger] r@[i * len + j] == (j > i),
{
    let mut r: Vec<bool> = Vec::new();
    let mut i: usize = 0;
    while i < len
        invariant
            0 <= i <= len,
            r@.len() == i * len,
            len * len <= usize::MAX,
            forall|a: int, b: int|
                0 <= a < i && 0 <= b < len ==> #[trigger] r@[a * len + b] == (b > a),
        decreases len - i,
    {
        let mut j: usize = 0;
        while j < len
            invariant
                0 <= i < len,
                0 <= j <= len,
                r@.len() == i * len + j,
                len * len <= usize::MAX,
                forall|a: int, b: int|
                    0 <= a < i && 0 <= b < len ==> #[trigger] r@[a * len + b] == (b > a),
                forall|b: int| 0 <= b < j ==> #[trigger] r@[i * len + b] == (b > i),
            decreases len - j,
        {
            proof {
                lemma_rows_apart(i as int, len as int);
            }
            r.push(j > i);
            j = j + 1;
        }
        assert((i + 1) * len == i * len + len) by (nonlinear_arith);
        i = i + 1;
    }
    r
}

/// The entries of earlier rows stand before those of row `i`.
proof fn lemma_rows_apart(i: int, len: int)
    requires
        0 <= i,
        0 <= len,
    ensures
        forall|a: int, b: int| 0 <= a < i && 0 <= b < len ==> 0 <= #[trigger] (a * len + b) < i * len,
{
    assert forall|a: int, b: int| 0 <= a < i && 0 <= b < len implies 0 <= #[trigger] (a * len + b)
        < i * len by {
        assert(0 <= a * len && a * len + len <= i * len) by (nonlinear_arith)
            requires
                0 <= a,
                a + 1 <= i,
                0 <= len,
        ;
    }
}

}
