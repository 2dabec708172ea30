//! The recurrent layers of the quantized model.
use crate::blocks::{mean_square_norm, repeat_interleave, softplus, Heads};
use crate::delta;
use crate::delta::{answers, torch_recurrent_gated_delta_rule, DeltaDims, DeltaInputs};
use crate::graph;
use crate::graph::{Dims, FloatSetting, Node, Pairwise, Projection, SameShape, Scan, Slot};
use crate::ops::{
    apply, cat, collect, leaf, linear, narrow, narrow_step, pair, reshape, scan_state, sum,
    transpose, unsqueeze, zeros_like,
};
use crate::pass::Step;
use crate::shapes;
use std::rc::Rc;
use vstd::prelude::*;

verus! {

broadcast use {graph::group_shape, graph::group_closed};

/// What a recurrent layer knows of its weights, and whether it has seen a sequence.
#[derive(Debug, Clone, Copy, PartialEq, Eq, Structural)]
pub struct StateSpaceWeights {
    pub num_v_heads: usize,
    pub num_k_heads: usize,
    pub head_k_dim: usize,
    pub head_v_dim: usize,
    pub key_dim: usize,
    pub value_dim: usize,
    pub conv_kernel_size: usize,
    pub conv_dim: usize,
    /// What the norm adds to a mean square.
    pub norm_eps: FloatSetting,
    /// Whether there is a convolution state and a recurrent state.
    pub primed: bool,
}

/// The output of a recurrent layer, and the states to keep.
#[derive(Debug)]
pub struct StateSpaceStep {
    pub output: Rc<Node>,
    pub conv_state: Rc<Node>,
    pub recurrent_state: Rc<Node>,
}

/// The inputs of the convolution: `mixed` behind the kept ones, or behind zeros.
#[verifier::allow_in_spec]
pub fn padded(mixed: &Rc<Node>, kept: bool, batch: usize, conv_dim: usize, pad: usize) -> Rc<Node>
    returns
        if kept {
            cat(&leaf(Slot::ConvState), mixed, 2)
        } else {
            cat(&zeros_like(Dims::Three(batch, conv_dim, pad), mixed), mixed, 2)
        },
{
    if kept {
        cat(&leaf(Slot::ConvState), mixed, 2)
    } else {
        cat(&zeros_like(Dims::Three(batch, conv_dim, pad), mixed), mixed, 2)
    }
}

/// The convolution state after a step: the last `pad` inputs.
#[verifier::allow_in_spec]
pub fn last_inputs(conv_input: &Rc<Node>, kept: bool, len: usize, pad: usize) -> Rc<Node>
    returns
        if kept {
            narrow(conv_input, 2, 1, pad)
        } else {
            narrow(conv_input, 2, len, pad)
        },
{
    if kept {
        narrow(conv_input, 2, 1, pad)
    } else {
        narrow(conv_input, 2, len, pad)
    }
}

/// The output of the convolution at one position: the window of the position, weighted and summed.
#[verifier::allow_in_spec]
pub fn convolved(conv_input: &Rc<Node>, kernel: usize) -> Rc<Node>
    returns
        unsqueeze(
            &sum(
                &pair(
                    Pairwise::BroadcastMul,
                    &narrow_step(conv_input, 2, kernel),
                    &unsqueeze(
                        &pair(Pairwise::FormatOf, &leaf(Slot::ConvWeight), conv_input),
                        0,
                    ),
                ),
                2,
            ),
            2,
        ),
{
    unsqueeze(
        &sum(
            &pair(
                Pairwise::BroadcastMul,
                &narrow_step(conv_input, 2, kernel),
                &unsqueeze(&pair(Pairwise::FormatOf, &leaf(Slot::ConvWeight), conv_input), 0),
            ),
            2,
        ),
        2,
    )
}

/// The activated convolution at all positions.
#[verifier::allow_in_spec]
pub fn apply_depthwise_conv_silu(conv_input: &Rc<Node>, len: usize, kernel: usize) -> Rc<Node>
    returns
        apply(SameShape::Silu, &collect(len, 2, &convolved(conv_input, kernel))),
{
    apply(SameShape::Silu, &collect(len, 2, &convolved(conv_input, kernel)))
}

/// A part of the channels, split into heads.
#[verifier::allow_in_spec]
pub fn channels(x: &Rc<Node>, start: usize, count: usize, dims: Heads) -> Rc<Node>
    returns
        reshape(
            &narrow(x, 2, start, count),
            Dims::Four(dims.batch, dims.len, dims.heads, dims.width),
        ),
{
    reshape(
        &narrow(x, 2, start, count),
        Dims::Four(dims.batch, dims.len, dims.heads, dims.width),
    )
}

/// `x` normalised, weighted, and multiplied by the activated gate.
#[verifier::allow_in_spec]
pub fn rms_norm_gated(x: &Rc<Node>, gate: &Rc<Node>, eps: FloatSetting) -> Rc<Node>
    returns
        pair(
            Pairwise::FormatOf,
            &pair(
                Pairwise::BroadcastMul,
                &pair(
                    Pairwise::BroadcastMul,
                    &mean_square_norm(&apply(SameShape::Single, x), eps),
                    &leaf(Slot::GatedNorm),
                ),
                &apply(SameShape::Silu, &apply(SameShape::Single, gate)),
            ),
            x,
        ),
{
    let normed = mean_square_norm(&apply(SameShape::Single, x), eps);
    pair(
        Pairwise::FormatOf,
        &pair(
            Pairwise::BroadcastMul,
            &pair(Pairwise::BroadcastMul, &normed, &leaf(Slot::GatedNorm)),
            &apply(SameShape::Silu, &apply(SameShape::Single, gate)),
        ),
        x,
    )
}

impl StateSpaceWeights {
    /// The dimensions belong together.
    pub open spec fn well_formed(self) -> bool {
        &&& self.num_v_heads > 0
        &&& self.num_k_heads == self.num_v_heads
        &&& self.value_dim == self.num_v_heads * self.head_v_dim
        &&& self.key_dim == self.num_k_heads * self.head_k_dim
        &&& self.conv_dim == self.key_dim * 2 + self.value_dim
    }

    /// Whether a step continues from the kept states: it has a single position, and there are some.
    pub open spec fn continues(self, step: Step) -> bool {
        self.primed && step.len == 1
    }

    pub open spec fn delta_dims(self, step: Step) -> DeltaDims {
        DeltaDims {
            batch: step.batch,
            heads: self.num_v_heads,
            len: step.len,
            key_width: self.head_k_dim,
            value_width: self.head_v_dim,
        }
    }

    pub open spec fn key_heads(self, step: Step) -> Heads {
        Heads {
            batch: step.batch,
            len: step.len,
            heads: self.num_k_heads,
            width: self.head_k_dim,
        }
    }

    pub open spec fn value_heads(self, step: Step) -> Heads {
        Heads {
            batch: step.batch,
            len: step.len,
            heads: self.num_v_heads,
            width: self.head_v_dim,
        }
    }

    /// How many value heads share a key head.
    pub open spec fn repeats(self) -> usize {
        self.num_v_heads / self.num_k_heads
    }

    /// The channels before the convolution, channels before positions.
    pub open spec fn mixed(self, x: Rc<Node>) -> Rc<Node> {
        transpose(
            &linear(Projection::MixedQkv, &apply(SameShape::Contiguous, &x)),
            1,
            2,
        )
    }

    /// The inputs of the convolution.
    pub open spec fn conv_input(self, x: Rc<Node>, step: Step) -> Rc<Node> {
        padded(
            &self.mixed(x),
            self.continues(step),
            step.batch,
            self.conv_dim,
            (self.conv_kernel_size - 1) as usize,
        )
    }

    /// The channels after the convolution, positions before channels.
    pub open spec fn convolution(self, x: Rc<Node>, step: Step) -> Rc<Node> {
        transpose(
            &apply_depthwise_conv_silu(
                &self.conv_input(x, step),
                step.len,
                self.conv_kernel_size,
            ),
            1,
            2,
        )
    }

    /// The inputs of the delta rule: queries, keys and values from the convolution, the decay
    /// `softplus(alpha + dt_bias) * a` and the logistic function of `beta` from the input itself.
    pub open spec fn delta_inputs(self, x: Rc<Node>, step: Step) -> DeltaInputs {
        let qkv = self.convolution(x, step);
        let (n, k) = (self.repeats(), self.key_heads(step));
        let states = apply(SameShape::Contiguous, &x);
        DeltaInputs {
            query: repeat_interleave(&channels(&qkv, 0, self.key_dim, k), n, k),
            key: repeat_interleave(&channels(&qkv, self.key_dim, self.key_dim, k), n, k),
            value: channels(
                &qkv,
                (self.key_dim * 2) as usize,
                self.value_dim,
                self.value_heads(step),
            ),
            decay: pair(
                Pairwise::BroadcastMul,
                &softplus(&linear(Projection::Alpha, &states)),
                &leaf(Slot::NegativeDecay),
            ),
            beta: apply(SameShape::Sigmoid, &linear(Projection::Beta, &states)),
        }
    }

    /// The delta rule over the positions of the step.
    pub open spec fn rule(self, x: Rc<Node>, step: Step) -> Rc<Scan> {
        torch_recurrent_gated_delta_rule(
            &self.delta_inputs(x, step),
            self.delta_dims(step),
            self.continues(step),
        )
    }

    /// Output gates.
    pub open spec fn gate(self, x: Rc<Node>, step: Step) -> Rc<Node> {
        reshape(
            &reshape(
                &linear(Projection::MixerGate, &apply(SameShape::Contiguous, &x)),
                Dims::Four(step.batch, step.len, self.num_v_heads, self.head_v_dim),
            ),
            Dims::HoleOne(self.head_v_dim),
        )
    }

    /// The answers of the rule, one row for each head of each position.
    pub open spec fn rows(self, x: Rc<Node>, step: Step) -> Rc<Node> {
        reshape(
            &pair(
                Pairwise::FormatOf,
                &answers(&self.rule(x, step)),
                &apply(SameShape::Contiguous, &x),
            ),
            Dims::HoleOne(self.head_v_dim),
        )
    }

    /// The output of the layer.
    pub open spec fn output(self, x: Rc<Node>, step: Step) -> Rc<Node> {
        linear(
            Projection::MixerOutput,
            &reshape(
                &rms_norm_gated(&self.rows(x, step), &self.gate(x, step), self.norm_eps),
                Dims::Three(step.batch, step.len, self.value_dim),
            ),
        )
    }

    /// The recurrence over the positions of `x`, from the kept states where a single position
    /// follows them, otherwise from the beginning. The states behind the last position are kept.
    pub fn forward(&mut self, x: &Rc<Node>, step: Step) -> (r: StateSpaceStep)
        requires
            old(self).well_formed(),
            old(self).conv_kernel_size >= 1,
        ensures
            r.output == old(self).output(*x, step),
            r.conv_state == last_inputs(
                &old(self).conv_input(*x, step),
                old(self).continues(step),
                step.len,
                (old(self).conv_kernel_size - 1) as usize,
            ),
            r.recurrent_state == scan_state(&old(self).rule(*x, step)),
            *final(self) == (StateSpaceWeights { primed: true, ..*old(self) }),
    {
        let (b, s): (usize, usize) = (step.batch, step.len);
        let states = apply(SameShape::Contiguous, x);
        let mixed = transpose(&linear(Projection::MixedQkv, &states), 1, 2);
        let z = reshape(
            &linear(Projection::MixerGate, &states),
            Dims::Four(b, s, self.num_v_heads, self.head_v_dim),
        );
        let beta = apply(SameShape::Sigmoid, &linear(Projection::Beta, &states));
        let a = linear(Projection::Alpha, &states);

        let kept = self.primed && s == 1;
        let pad: usize = self.conv_kernel_size - 1;
        let conv_input = padded(&mixed, kept, b, self.conv_dim, pad);
        let conv_state = last_inputs(&conv_input, kept, s, pad);
        let convolved = apply_depthwise_conv_silu(&conv_input, s, self.conv_kernel_size);
        let qkv = transpose(&convolved, 1, 2);

        let key_heads = Heads {
            batch: b,
            len: s,
            heads: self.num_k_heads,
            width: self.head_k_dim,
        };
        let value_heads = Heads {
            batch: b,
            len: s,
            heads: self.num_v_heads,
            width: self.head_v_dim,
        };
        let repeats: usize = self.num_v_heads / self.num_k_heads;
        proof {
            lemma_repeats(*self);
        }
        let query = channels(&qkv, 0, self.key_dim, key_heads);
        let key = channels(&qkv, self.key_dim, self.key_dim, key_heads);
        let inputs = DeltaInputs {
            query: repeat_interleave(&query, repeats, key_heads),
            key: repeat_interleave(&key, repeats, key_heads),
            value: channels(&qkv, self.key_dim * 2, self.value_dim, value_heads),
            decay: pair(Pairwise::BroadcastMul, &softplus(&a), &leaf(Slot::NegativeDecay)),
            beta,
        };
        let dims = DeltaDims {
            batch: b,
            heads: self.num_v_heads,
            len: s,
            key_width: self.head_k_dim,
            value_width: self.head_v_dim,
        };
        let rule = torch_recurrent_gated_delta_rule(&inputs, dims, kept);
        let recurrent_state = scan_state(&rule);

        let rows = reshape(
            &pair(Pairwise::FormatOf, &answers(&rule), &states),
            Dims::HoleOne(self.head_v_dim),
        );
        let gate = reshape(&z, Dims::HoleOne(self.head_v_dim));
        let joined = reshape(
            &rms_norm_gated(&rows, &gate, self.norm_eps),
            Dims::Three(b, s, self.value_dim),
        );
        let output = linear(Projection::MixerOutput, &joined);
        self.primed = true;
        StateSpaceStep { output, conv_state, recurrent_state }
    }

    /// Forgets the states.
    pub fn clear_cache(&mut self)
        ensures
            *final(self) == (StateSpaceWeights { primed: false, ..*old(self) }),
    {
        self.primed = false;
    }
}

/// With as many key heads as value heads nothing is repeated.
pub proof fn lemma_repeats(w: StateSpaceWeights)
    requires
        w.well_formed(),
    ensures
        w.repeats() == 1,
{
    assert(w.num_v_heads / w.num_v_heads == 1) by (nonlinear_arith)
        requires
            w.num_v_heads > 0,
    ;
}

impl StateSpaceWeights {
    /// The tensors behind a formula have the shapes that the layer expects.
    pub open spec fn described_by(self, env: graph::Shapes, step: Step, hidden: nat) -> bool {
        let heads = self.num_v_heads as nat;
        &&& (env.linear)(Projection::MixedQkv) == Some((hidden, self.conv_dim as nat))
        &&& (env.linear)(Projection::MixerGate) == Some((hidden, self.value_dim as nat))
        &&& (env.linear)(Projection::Alpha) == Some((hidden, heads))
        &&& (env.linear)(Projection::Beta) == Some((hidden, heads))
        &&& (env.linear)(Projection::MixerOutput) == Some((self.value_dim as nat, hidden))
        &&& (env.leaf)(Slot::ConvWeight) == Some(
            seq![self.conv_dim as nat, self.conv_kernel_size as nat],
        )
        &&& (env.leaf)(Slot::DtBias) == Some(seq![heads])
        &&& (env.leaf)(Slot::NegativeDecay) == Some(seq![heads])
        &&& (env.leaf)(Slot::GatedNorm) == Some(seq![self.head_v_dim as nat])
        &&& self.primed ==> self.keeps(env, step)
    }

    /// The states have the shapes in which the layer keeps them.
    pub open spec fn keeps(self, env: graph::Shapes, step: Step) -> bool {
        &&& (env.leaf)(Slot::ConvState) == Some(
            conv_state_shape(step.batch, self.conv_dim, self.conv_kernel_size),
        )
        &&& (env.leaf)(Slot::RecurrentState) == Some(delta::state_shape(self.delta_dims(step)))
    }
}

/// The shape of a convolution state.
pub open spec fn conv_state_shape(batch: usize, conv_dim: usize, kernel: usize) -> Seq<nat> {
    seq![batch as nat, conv_dim as nat, (kernel - 1) as nat]
}

/// The inputs of the convolution, and the state that is kept of them.
pub proof fn lemma_padded(
    mixed: Rc<Node>,
    kept: bool,
    batch: usize,
    conv_dim: usize,
    kernel: usize,
    len: usize,
    env: graph::Shapes,
)
    requires
        kernel >= 1,
        len >= 1,
        kept ==> len == 1,
        graph::shape(&mixed, env) == Some(seq![batch as nat, conv_dim as nat, len as nat]),
        kept ==> (env.leaf)(Slot::ConvState) == Some(conv_state_shape(batch, conv_dim, kernel)),
    ensures
        ({
            let input = padded(&mixed, kept, batch, conv_dim, (kernel - 1) as usize);
            &&& graph::shape(&input, env) == Some(
                seq![batch as nat, conv_dim as nat, (kernel - 1 + len) as nat],
            )
            &&& graph::shape(&last_inputs(&input, kept, len, (kernel - 1) as usize), env)
                == Some(conv_state_shape(batch, conv_dim, kernel))
            &&& graph::closed(&mixed) ==> graph::closed(&input)
        }),
{
    let (b, c, s, p) = (batch as nat, conv_dim as nat, len as nat, (kernel - 1) as nat);
    let input = padded(&mixed, kept, batch, conv_dim, (kernel - 1) as usize);
    assert(seq![b, c, s].update(2, p) =~= seq![b, c, p]);
    assert(seq![b, c, p].update(2, p + s) =~= seq![b, c, p + s]);
    assert(graph::shape(&input, env) == Some(seq![b, c, p + s]));
    assert(seq![b, c, p + s].update(2, p) =~= seq![b, c, p]);
}

/// The convolution gives each channel of each position a value.
proof fn lemma_convolution(
    input: Rc<Node>,
    env: graph::Shapes,
    b: nat,
    c: nat,
    len: usize,
    kernel: usize,
)
    requires
        kernel >= 1,
        len >= 1,
        graph::closed(&input),
        graph::shape(&input, env) == Some(seq![b, c, (kernel - 1 + len) as nat]),
        (env.leaf)(Slot::ConvWeight) == Some(seq![c, kernel as nat]),
    ensures
        graph::shape(&apply_depthwise_conv_silu(&input, len, kernel), env) == Some(
            seq![b, c, len as nat],
        ),
        graph::closed(&apply_depthwise_conv_silu(&input, len, kernel)),
{
    let (k, s) = (kernel as nat, len as nat);
    let inner = env.within(s, None);
    graph::lemma_closed(&input, env, s, None);
    let window = narrow_step(&input, 2, kernel);
    assert(seq![b, c, (kernel - 1 + len) as nat].update(2, k) =~= seq![b, c, k]);
    assert(graph::shape(&window, inner) == Some(seq![b, c, k]));
    let weight = unsqueeze(&pair(Pairwise::FormatOf, &leaf(Slot::ConvWeight), &input), 0);
    assert(seq![c, k].insert(0, 1) =~= seq![1, c, k]);
    assert(graph::shape(&weight, inner) == Some(seq![1, c, k]));
    shapes::lemma_broadcast3(seq![b, c, k], seq![1, c, k]);
    let products = pair(Pairwise::BroadcastMul, &window, &weight);
    assert(graph::shape(&products, inner) == Some(seq![b, c, k]));
    assert(seq![b, c, k].remove(2) =~= seq![b, c]);
    assert(seq![b, c].insert(2, 1) =~= seq![b, c, 1]);
    let item = convolved(&input, kernel);
    assert(graph::shape(&item, inner) == Some(seq![b, c, 1]));
    assert(seq![b, c, 1nat].update(2, s * 1) =~= seq![b, c, s]);
    let items = collect(len, 2, &item);
    assert(graph::shape(&items, env) == Some(seq![b, c, s]));
}

/// A part of the channels split into heads.
proof fn lemma_channels(
    x: Rc<Node>,
    env: graph::Shapes,
    start: usize,
    count: usize,
    dims: Heads,
    total: nat,
)
    requires
        graph::shape(&x, env) == Some(seq![dims.batch as nat, dims.len as nat, total]),
        start + count <= total,
        count == dims.heads * dims.width,
    ensures
        graph::shape(&channels(&x, start, count, dims), env) == Some(
            seq![dims.batch as nat, dims.len as nat, dims.heads as nat, dims.width as nat],
        ),
        graph::closed(&x) ==> graph::closed(&channels(&x, start, count, dims)),
{
    let (b, s) = (dims.batch as nat, dims.len as nat);
    assert(seq![b, s, total].update(2, count as nat) =~= seq![b, s, count as nat]);
    shapes::lemma_split_last(dims.batch, dims.len, count as nat, dims.heads, dims.width);
}

/// A linear map of the contiguous input.
pub proof fn lemma_linear_of(
    map: Projection,
    x: Rc<Node>,
    env: graph::Shapes,
    b: nat,
    s: nat,
    from: nat,
    to: nat,
)
    requires
        graph::shape(&x, env) == Some(seq![b, s, from]),
        (env.linear)(map) == Some((from, to)),
    ensures
        graph::shape(&linear(map, &apply(SameShape::Contiguous, &x)), env) == Some(
            seq![b, s, to],
        ),
        graph::closed(&x) ==> graph::closed(&linear(map, &apply(SameShape::Contiguous, &x))),
{
    assert(seq![b, s, from].update(2, to) =~= seq![b, s, to]);
}

proof fn lemma_delta_inputs(
    w: StateSpaceWeights,
    x: Rc<Node>,
    step: Step,
    env: graph::Shapes,
    hidden: nat,
)
    requires
        w.well_formed(),
        w.conv_kernel_size >= 1,
        step.len >= 1,
        w.described_by(env, step, hidden),
        graph::closed(&x),
        graph::shape(&x, env) == Some(seq![step.batch as nat, step.len as nat, hidden]),
    ensures
        w.delta_inputs(x, step).fit(w.delta_dims(step), env),
        graph::shape(
            &last_inputs(
                &w.conv_input(x, step),
                w.continues(step),
                step.len,
                (w.conv_kernel_size - 1) as usize,
            ),
            env,
        ) == Some(conv_state_shape(step.batch, w.conv_dim, w.conv_kernel_size)),
{
    let (b, s, c) = (step.batch as nat, step.len as nat, w.conv_dim as nat);
    let heads = w.num_v_heads as nat;
    lemma_linear_of(Projection::MixedQkv, x, env, b, s, hidden, c);
    assert(graph::transposed(Some(seq![b, s, c]), 1, 2)->0 =~= seq![b, c, s]);
    let mixed = w.mixed(x);
    assert(graph::shape(&mixed, env) == Some(seq![b, c, s]));
    assert(graph::closed(&mixed));
    lemma_padded(
        mixed,
        w.continues(step),
        step.batch,
        w.conv_dim,
        w.conv_kernel_size,
        step.len,
        env,
    );
    let input = w.conv_input(x, step);
    lemma_convolution(input, env, b, c, step.len, w.conv_kernel_size);
    assert(graph::transposed(Some(seq![b, c, s]), 1, 2)->0 =~= seq![b, s, c]);
    let qkv = w.convolution(x, step);
    assert(graph::shape(&qkv, env) == Some(seq![b, s, c]));
    assert(graph::closed(&qkv));
    let (kh, vh) = (w.key_heads(step), w.value_heads(step));
    lemma_repeats(w);
    lemma_channels(qkv, env, 0, w.key_dim, kh, c);
    lemma_channels(qkv, env, w.key_dim, w.key_dim, kh, c);
    lemma_channels(qkv, env, (w.key_dim * 2) as usize, w.value_dim, vh, c);
    lemma_linear_of(Projection::Alpha, x, env, b, s, hidden, heads);
    lemma_linear_of(Projection::Beta, x, env, b, s, hidden, heads);
    let alpha = linear(Projection::Alpha, &apply(SameShape::Contiguous, &x));
    shapes::lemma_softplus(alpha, env, seq![b, s, heads]);
    shapes::lemma_broadcast_last(seq![b, s, heads], heads);
}

/// The gated norm of rows has their shape.
proof fn lemma_rms_norm_gated(
    x: Rc<Node>,
    gate: Rc<Node>,
    eps: FloatSetting,
    env: graph::Shapes,
    n: nat,
    d: nat,
)
    requires
        graph::shape(&x, env) == Some(seq![n, d]),
        graph::shape(&gate, env) == Some(seq![n, d]),
        (env.leaf)(Slot::GatedNorm) == Some(seq![d]),
    ensures
        graph::shape(&rms_norm_gated(&x, &gate, eps), env) == Some(seq![n, d]),
{
    shapes::lemma_mean_square_norm(apply(SameShape::Single, &x), eps, env, seq![n, d]);
    shapes::lemma_broadcast_last(seq![n, d], d);
    shapes::lemma_broadcast2(seq![n, d], seq![n, d]);
}

/// Output gates, one row for each head of each position.
proof fn lemma_gate(
    w: StateSpaceWeights,
    x: Rc<Node>,
    step: Step,
    env: graph::Shapes,
    hidden: nat,
)
    requires
        w.well_formed(),
        w.head_v_dim > 0,
        (env.linear)(Projection::MixerGate) == Some((hidden, w.value_dim as nat)),
        graph::shape(&x, env) == Some(seq![step.batch as nat, step.len as nat, hidden]),
    ensures
        graph::shape(&w.gate(x, step), env) == Some(
            seq![(step.batch * step.len * w.num_v_heads) as nat, w.head_v_dim as nat],
        ),
{
    let (b, s) = (step.batch as nat, step.len as nat);
    lemma_linear_of(Projection::MixerGate, x, env, b, s, hidden, w.value_dim as nat);
    shapes::lemma_split_last(
        step.batch,
        step.len,
        w.value_dim as nat,
        w.num_v_heads,
        w.head_v_dim,
    );
    shapes::lemma_rows(b, s, w.num_v_heads as nat, w.head_v_dim);
}

/// Answers turned into the output.
proof fn lemma_output(
    answered: Rc<Node>,
    x: Rc<Node>,
    gate: Rc<Node>,
    eps: FloatSetting,
    step: Step,
    env: graph::Shapes,
    hidden: nat,
    h: nat,
    width: usize,
    value_dim: usize,
)
    requires
        width > 0,
        value_dim == h * width,
        graph::shape(&answered, env) == Some(
            seq![step.batch as nat, step.len as nat, h, width as nat],
        ),
        graph::shape(&x, env) is Some,
        graph::shape(&gate, env) == Some(
            seq![(step.batch * step.len * h) as nat, width as nat],
        ),
        (env.leaf)(Slot::GatedNorm) == Some(seq![width as nat]),
        (env.linear)(Projection::MixerOutput) == Some((value_dim as nat, hidden)),
    ensures
        graph::shape(
            &linear(
                Projection::MixerOutput,
                &reshape(
                    &rms_norm_gated(
                        &reshape(
                            &pair(
                                Pairwise::FormatOf,
                                &answered,
                                &apply(SameShape::Contiguous, &x),
                            ),
                            Dims::HoleOne(width),
                        ),
                        &gate,
                        eps,
                    ),
                    Dims::Three(step.batch, step.len, value_dim),
                ),
            ),
            env,
        ) == Some(seq![step.batch as nat, step.len as nat, hidden]),
{
    let (b, s, d) = (step.batch as nat, step.len as nat, width as nat);
    let n = b * s * h;
    shapes::lemma_rows(b, s, h, width);
    let cast = pair(Pairwise::FormatOf, &answered, &apply(SameShape::Contiguous, &x));
    let rows = reshape(&cast, Dims::HoleOne(width));
    assert(graph::shape(&rows, env) == Some(seq![n, d]));
    lemma_rms_norm_gated(rows, gate, eps, env, n, d);
    shapes::lemma_rows_joined(step.batch, step.len, h, d, value_dim);
    let joined = seq![b, s, value_dim as nat];
    assert(joined.update(2, hidden) =~= seq![b, s, hidden]);
}

/// A step of a recurrent layer has the shape of its input, and leaves states of the shapes in
/// which the layer keeps them, whether it continued from kept states or not.
pub proof fn state_space_fits(
    w: StateSpaceWeights,
    x: Rc<Node>,
    step: Step,
    env: graph::Shapes,
    hidden: nat,
)
    requires
        w.well_formed(),
        w.head_v_dim > 0,
        w.conv_kernel_size >= 1,
        step.len >= 1,
        w.described_by(env, step, hidden),
        graph::closed(&x),
        graph::shape(&x, env) == Some(seq![step.batch as nat, step.len as nat, hidden]),
    ensures
        graph::shape(&w.output(x, step), env) == Some(
            seq![step.batch as nat, step.len as nat, hidden],
        ),
        graph::shape(
            &last_inputs(
                &w.conv_input(x, step),
                w.continues(step),
                step.len,
                (w.conv_kernel_size - 1) as usize,
            ),
            env,
        ) == Some(conv_state_shape(step.batch, w.conv_dim, w.conv_kernel_size)),
        graph::shape(&scan_state(&w.rule(x, step)), env) == Some(
            delta::state_shape(w.delta_dims(step)),
        ),
{
    let (inputs, dims) = (w.delta_inputs(x, step), w.delta_dims(step));
    lemma_delta_inputs(w, x, step, env, hidden);
    delta::delta_rule_keeps_its_state(&inputs, dims, w.continues(step), env);
    lemma_gate(w, x, step, env, hidden);
    lemma_output(
        answers(&w.rule(x, step)),
        x,
        w.gate(x, step),
        w.norm_eps,
        step,
        env,
        hidden,
        w.num_v_heads as nat,
        w.head_v_dim,
        w.value_dim,
    );
}

}
