//! The recurrent layers of the dense model.
use crate::blocks::{mean_square_norm, repeat_interleave, softplus, Heads};
use crate::delta;
use crate::delta::{answers, torch_recurrent_gated_delta_rule, DeltaDims, DeltaInputs};
use crate::graph;
use crate::graph::{Dims, FloatSetting, Node, Pairwise, Projection, SameShape, Scalar, Scan, Slot};
use crate::ops::{
    apply, conv, leaf, linear, narrow, pair, reshape, scan_state, times, transpose,
};
use crate::pass::Step;
use crate::qwen3_5;
use crate::qwen3_5::{child, linear_no_bias, Config, LinearWeights};
use crate::shapes;
use crate::state_space;
use crate::state_space::{last_inputs, padded, StateSpaceStep};
use std::rc::Rc;
use vstd::prelude::*;

verus! {

broadcast use {graph::group_shape, graph::group_closed};

/// The dimensions of a recurrent layer.
#[derive(Debug, Clone, Copy, PartialEq, Eq, Structural)]
pub struct DeltaNetDims {
    pub num_v_heads: usize,
    pub num_k_heads: usize,
    pub head_k_dim: usize,
    pub head_v_dim: usize,
    pub key_dim: usize,
    pub value_dim: usize,
    pub conv_kernel_size: usize,
    pub conv_dim: usize,
    /// The bits of the number that the norm adds to a mean square.
    pub norm_eps: u64,
}

/// A recurrent layer, and whether it has seen a sequence.
#[derive(Debug)]
pub struct Qwen3_5GatedDeltaNet {
    /// Below it stand the kernels of the convolution, `dt_bias`, `A_log` and the weight of the norm.
    pub path: String,
    pub dims: DeltaNetDims,
    pub in_proj_qkv: LinearWeights,
    pub in_proj_z: LinearWeights,
    pub in_proj_b: LinearWeights,
    pub in_proj_a: LinearWeights,
    pub out_proj: LinearWeights,
    /// Whether there is a convolution state and a recurrent state.
    pub primed: bool,
}

/// The negative decay rates, from their logarithms.
#[verifier::allow_in_spec]
pub fn negative_decay() -> Rc<Node>
    returns
        times(
            &apply(SameShape::Exp, &apply(SameShape::Single, &leaf(Slot::ALog))),
            Scalar::MinusOne,
        ),
{
    times(
        &apply(SameShape::Exp, &apply(SameShape::Single, &leaf(Slot::ALog))),
        Scalar::MinusOne,
    )
}

/// The last dimension of `x` split into heads of width `width`.
#[verifier::allow_in_spec]
pub fn split(x: &Rc<Node>, step: Step, width: usize) -> Rc<Node>
    returns
        reshape(x, Dims::TwoHoleOne(step.batch, step.len, width)),
{
    reshape(x, Dims::TwoHoleOne(step.batch, step.len, width))
}

/// `x` normalised and weighted, multiplied by the activated gate.
#[verifier::allow_in_spec]
pub fn rms_norm_gated(x: &Rc<Node>, gate: &Rc<Node>, eps: u64) -> Rc<Node>
    returns
        pair(
            Pairwise::BroadcastMul,
            &pair(
                Pairwise::FormatOf,
                &pair(
                    Pairwise::BroadcastMul,
                    &mean_square_norm(&apply(SameShape::Single, x), FloatSetting::Double(eps)),
                    &apply(SameShape::Single, &leaf(Slot::GatedNorm)),
                ),
                x,
            ),
            &pair(
                Pairwise::FormatOf,
                &apply(SameShape::Silu, &apply(SameShape::Single, gate)),
                x,
            ),
        ),
{
    let normed = mean_square_norm(&apply(SameShape::Single, x), FloatSetting::Double(eps));
    let weight = apply(SameShape::Single, &leaf(Slot::GatedNorm));
    let weighted = pair(
        Pairwise::FormatOf,
        &pair(Pairwise::BroadcastMul, &normed, &weight),
        x,
    );
    let activated = pair(
        Pairwise::FormatOf,
        &apply(SameShape::Silu, &apply(SameShape::Single, gate)),
        x,
    );
    pair(Pairwise::BroadcastMul, &weighted, &activated)
}

impl DeltaNetDims {
    /// The dimensions belong together.
    pub open spec fn well_formed(self) -> bool {
        &&& self.key_dim == self.head_k_dim * self.num_k_heads
        &&& self.value_dim == self.head_v_dim * self.num_v_heads
        &&& self.conv_dim == self.key_dim * 2 + self.value_dim
    }

    /// The layer can make a pass.
    pub open spec fn runnable(self) -> bool {
        &&& self.well_formed()
        &&& self.num_k_heads != 0
        &&& self.conv_kernel_size >= 1
    }

    /// The dimensions of the delta rule: it has a matrix for each repeated key head.
    pub open spec fn delta_dims(self, step: Step) -> DeltaDims {
        DeltaDims {
            batch: step.batch,
            heads: (self.num_k_heads * self.repeats()) as usize,
            len: step.len,
            key_width: self.head_k_dim,
            value_width: self.head_v_dim,
        }
    }

    pub open spec fn key_heads(self, step: Step) -> Heads {
        Heads {
            batch: step.batch,
            len: step.len,
            heads: self.num_k_heads,
            width: self.head_k_dim,
        }
    }

    /// How many value heads share a key head.
    pub open spec fn repeats(self) -> usize {
        self.num_v_heads / self.num_k_heads
    }

    /// The channels before the convolution, channels before positions.
    pub open spec fn mixed(self, x: Rc<Node>) -> Rc<Node> {
        transpose(
            &linear(Projection::MixedQkv, &apply(SameShape::Contiguous, &x)),
            1,
            2,
        )
    }

    /// The inputs of the convolution.
    pub open spec fn conv_input(self, x: Rc<Node>, step: Step, kept: bool) -> Rc<Node> {
        padded(
            &self.mixed(x),
            kept,
            step.batch,
            self.conv_dim,
            (self.conv_kernel_size - 1) as usize,
        )
    }

    /// The convolution state after the step.
    pub open spec fn conv_state(self, x: Rc<Node>, step: Step, kept: bool) -> Rc<Node> {
        last_inputs(
            &self.conv_input(x, step, kept),
            kept,
            step.len,
            (self.conv_kernel_size - 1) as usize,
        )
    }

    /// The channels after the convolution, positions before channels.
    pub open spec fn convolution(self, x: Rc<Node>, step: Step, kept: bool) -> Rc<Node> {
        transpose(&apply(SameShape::Silu, &conv(&self.conv_input(x, step, kept))), 1, 2)
    }

    /// The inputs of the delta rule: queries, keys and values from the convolution, the decay
    /// `-exp(a_log) * softplus(a + dt_bias)` and the logistic function of `b` from the input itself.
    pub open spec fn delta_inputs(self, x: Rc<Node>, step: Step, kept: bool) -> DeltaInputs {
        let qkv = self.convolution(x, step, kept);
        let (n, k) = (self.repeats(), self.key_heads(step));
        let (key, value) = (self.key_dim, self.value_dim);
        let states = apply(SameShape::Contiguous, &x);
        DeltaInputs {
            query: repeat_interleave(
                &split(&narrow(&qkv, 2, 0, key), step, self.head_k_dim),
                n,
                k,
            ),
            key: repeat_interleave(
                &split(&narrow(&qkv, 2, key, key), step, self.head_k_dim),
                n,
                k,
            ),
            value: split(
                &narrow(&qkv, 2, (key * 2) as usize, value),
                step,
                self.head_v_dim,
            ),
            decay: pair(
                Pairwise::BroadcastMul,
                &leaf(Slot::NegativeDecay),
                &softplus(&linear(Projection::Alpha, &states)),
            ),
            beta: apply(SameShape::Sigmoid, &linear(Projection::Beta, &states)),
        }
    }

    /// The delta rule over the positions of the step.
    pub open spec fn rule(self, x: Rc<Node>, step: Step, kept: bool) -> Rc<Scan> {
        torch_recurrent_gated_delta_rule(
            &self.delta_inputs(x, step, kept),
            self.delta_dims(step),
            kept,
        )
    }

    /// Output gates.
    pub open spec fn gate(self, x: Rc<Node>, step: Step) -> Rc<Node> {
        reshape(
            &split(
                &linear(Projection::MixerGate, &apply(SameShape::Contiguous, &x)),
                step,
                self.head_v_dim,
            ),
            Dims::HoleOne(self.head_v_dim),
        )
    }

    /// The answers of the rule, one row for each head of each position.
    pub open spec fn rows(self, x: Rc<Node>, step: Step, kept: bool) -> Rc<Node> {
        reshape(
            &pair(
                Pairwise::FormatOf,
                &answers(&self.rule(x, step, kept)),
                &apply(SameShape::Contiguous, &x),
            ),
            Dims::HoleOne(self.head_v_dim),
        )
    }

    /// The output of the layer.
    pub open spec fn output(self, x: Rc<Node>, step: Step, kept: bool) -> Rc<Node> {
        linear(
            Projection::MixerOutput,
            &reshape(
                &rms_norm_gated(
                    &self.rows(x, step, kept),
                    &self.gate(x, step),
                    self.norm_eps,
                ),
                Dims::TwoHole(step.batch, step.len),
            ),
        )
    }
}

impl Config {
    /// The dimensions of the recurrent layers.
    pub open spec fn delta_net_dims(self) -> DeltaNetDims {
        let t = self.text_config;
        let key_dim = (t.linear_key_head_dim * t.linear_num_key_heads) as usize;
        let value_dim = (t.linear_value_head_dim * t.linear_num_value_heads) as usize;
        DeltaNetDims {
            num_v_heads: t.linear_num_value_heads,
            num_k_heads: t.linear_num_key_heads,
            head_k_dim: t.linear_key_head_dim,
            head_v_dim: t.linear_value_head_dim,
            key_dim,
            value_dim,
            conv_kernel_size: t.linear_conv_kernel_dim,
            conv_dim: (key_dim * 2 + value_dim) as usize,
            norm_eps: t.rms_norm_eps,
        }
    }

    /// The widths of the recurrent layers fit in a machine word.
    pub open spec fn delta_net_fits(self) -> bool {
        let t = self.text_config;
        t.linear_key_head_dim * t.linear_num_key_heads * 2 + t.linear_value_head_dim
            * t.linear_num_value_heads <= usize::MAX
    }
}

impl Qwen3_5GatedDeltaNet {
    /// The layer needs the weights that the configuration asks for.
    pub open spec fn is(self, cfg: Config, path: Seq<char>) -> bool {
        let d = cfg.delta_net_dims();
        let hidden = cfg.text_config.hidden_size as int;
        let (heads, value) = (d.num_v_heads as int, d.value_dim as int);
        &&& self.path@ == path
        &&& self.dims == d
        &&& self.in_proj_qkv.is(
            qwen3_5::below(path, "in_proj_qkv"@),
            hidden,
            d.conv_dim as int,
            false,
        )
        &&& self.in_proj_z.is(qwen3_5::below(path, "in_proj_z"@), hidden, value, false)
        &&& self.in_proj_b.is(qwen3_5::below(path, "in_proj_b"@), hidden, heads, false)
        &&& self.in_proj_a.is(qwen3_5::below(path, "in_proj_a"@), hidden, heads, false)
        &&& self.out_proj.is(qwen3_5::below(path, "out_proj"@), value, hidden, false)
    }

    /// Whether a step continues from the kept states: it has a single position, and there are some.
    pub open spec fn continues(self, step: Step) -> bool {
        self.primed && step.len == 1
    }

    /// Only the states differ.
    pub open spec fn same_weights(self, other: Qwen3_5GatedDeltaNet) -> bool {
        &&& self.path == other.path
        &&& self.dims == other.dims
        &&& self.in_proj_qkv == other.in_proj_qkv
        &&& self.in_proj_z == other.in_proj_z
        &&& self.in_proj_b == other.in_proj_b
        &&& self.in_proj_a == other.in_proj_a
        &&& self.out_proj == other.out_proj
    }

    /// A recurrent layer whose weights stand below `path`, with no states.
    pub fn new(cfg: &Config, path: &str) -> (r: Qwen3_5GatedDeltaNet)
        requires
            cfg.delta_net_fits(),
        ensures
            r.is(*cfg, path@),
            r.dims.well_formed(),
            !r.primed,
    {
        let hidden: usize = cfg.text_config.hidden_size;
        let num_v_heads: usize = cfg.text_config.linear_num_value_heads;
        let num_k_heads: usize = cfg.text_config.linear_num_key_heads;
        let head_k_dim: usize = cfg.text_config.linear_key_head_dim;
        let head_v_dim: usize = cfg.text_config.linear_value_head_dim;
        proof {
            assert(0 <= head_k_dim * num_k_heads) by (nonlinear_arith);
            assert(0 <= head_v_dim * num_v_heads) by (nonlinear_arith);
        }
        let key_dim: usize = head_k_dim * num_k_heads;
        let value_dim: usize = head_v_dim * num_v_heads;
        let conv_dim: usize = key_dim * 2 + value_dim;
        Qwen3_5GatedDeltaNet {
            path: path.to_owned(),
            dims: DeltaNetDims {
                num_v_heads,
                num_k_heads,
                head_k_dim,
                head_v_dim,
                key_dim,
                value_dim,
                conv_kernel_size: cfg.text_config.linear_conv_kernel_dim,
                conv_dim,
                norm_eps: cfg.text_config.rms_norm_eps,
            },
            in_proj_qkv: linear_no_bias(hidden, conv_dim, child(path, "in_proj_qkv")),
            in_proj_z: linear_no_bias(hidden, value_dim, child(path, "in_proj_z")),
            in_proj_b: linear_no_bias(hidden, num_v_heads, child(path, "in_proj_b")),
            in_proj_a: linear_no_bias(hidden, num_v_heads, child(path, "in_proj_a")),
            out_proj: linear_no_bias(value_dim, hidden, child(path, "out_proj")),
            primed: false,
        }
    }

    /// The recurrence over the positions of `x`, from the kept states where a single position
    /// follows them, otherwise from the beginning. The states behind the last position are kept.
    pub fn forward(&mut self, x: &Rc<Node>, step: Step) -> (r: StateSpaceStep)
        requires
            old(self).dims.runnable(),
        ensures
            r.output == old(self).dims.output(*x, step, old(self).continues(step)),
            r.conv_state == old(self).dims.conv_state(*x, step, old(self).continues(step)),
            r.recurrent_state == scan_state(
                &old(self).dims.rule(*x, step, old(self).continues(step)),
            ),
            final(self).primed,
            final(self).same_weights(*old(self)),
    {
        let dims = self.dims;
        let (b, s): (usize, usize) = (step.batch, step.len);
        let states = apply(SameShape::Contiguous, x);
        let mixed = transpose(&linear(Projection::MixedQkv, &states), 1, 2);
        let z = split(&linear(Projection::MixerGate, &states), step, dims.head_v_dim);
        let beta = apply(SameShape::Sigmoid, &linear(Projection::Beta, &states));
        let a = linear(Projection::Alpha, &states);

        let kept = self.primed && s == 1;
        let pad: usize = dims.conv_kernel_size - 1;
        let conv_input = padded(&mixed, kept, b, dims.conv_dim, pad);
        let conv_state = last_inputs(&conv_input, kept, s, pad);
        let qkv = transpose(&apply(SameShape::Silu, &conv(&conv_input)), 1, 2);

        let key_heads = Heads {
            batch: b,
            len: s,
            heads: dims.num_k_heads,
            width: dims.head_k_dim,
        };
        let repeats: usize = dims.num_v_heads / dims.num_k_heads;
        proof {
            lemma_repeats(dims);
        }
        let query = split(&narrow(&qkv, 2, 0, dims.key_dim), step, dims.head_k_dim);
        let key = split(&narrow(&qkv, 2, dims.key_dim, dims.key_dim), step, dims.head_k_dim);
        let value = split(
            &narrow(&qkv, 2, dims.key_dim * 2, dims.value_dim),
            step,
            dims.head_v_dim,
        );
        let inputs = DeltaInputs {
            query: repeat_interleave(&query, repeats, key_heads),
            key: repeat_interleave(&key, repeats, key_heads),
            value,
            decay: pair(Pairwise::BroadcastMul, &leaf(Slot::NegativeDecay), &softplus(&a)),
            beta,
        };
        let delta_dims = DeltaDims {
            batch: b,
            heads: dims.num_k_heads * repeats,
            len: s,
            key_width: dims.head_k_dim,
            value_width: dims.head_v_dim,
        };
        let rule = torch_recurrent_gated_delta_rule(&inputs, delta_dims, kept);
        let recurrent_state = scan_state(&rule);

        let rows = reshape(
            &pair(Pairwise::FormatOf, &answers(&rule), &states),
            Dims::HoleOne(dims.head_v_dim),
        );
        let gate = reshape(&z, Dims::HoleOne(dims.head_v_dim));
        let joined = reshape(&rms_norm_gated(&rows, &gate, dims.norm_eps), Dims::TwoHole(b, s));
        let output = linear(Projection::MixerOutput, &joined);
        self.primed = true;
        StateSpaceStep { output, conv_state, recurrent_state }
    }
}

/// The repeated key heads are no more than the value heads.
proof fn lemma_repeats(dims: DeltaNetDims)
    requires
        dims.num_k_heads != 0,
    ensures
        dims.num_k_heads * dims.repeats() <= dims.num_v_heads,
        dims.num_v_heads % dims.num_k_heads == 0 ==> dims.num_k_heads * dims.repeats()
            == dims.num_v_heads,
{
    vstd::arithmetic::div_mod::lemma_fundamental_div_mod(
        dims.num_v_heads as int,
        dims.num_k_heads as int,
    );
}

impl DeltaNetDims {
    /// The heads share the dimensions evenly.
    pub open spec fn consistent(self) -> bool {
        &&& self.num_v_heads % self.num_k_heads == 0
        &&& self.head_k_dim > 0
        &&& self.head_v_dim > 0
    }

    /// The tensors behind a formula have the shapes that the layer expects.
    pub open spec fn described_by(
        self,
        env: graph::Shapes,
        step: Step,
        hidden: nat,
        primed: bool,
    ) -> bool {
        let heads = self.num_v_heads as nat;
        &&& (env.linear)(Projection::MixedQkv) == Some((hidden, self.conv_dim as nat))
        &&& (env.linear)(Projection::MixerGate) == Some((hidden, self.value_dim as nat))
        &&& (env.linear)(Projection::Alpha) == Some((hidden, heads))
        &&& (env.linear)(Projection::Beta) == Some((hidden, heads))
        &&& (env.linear)(Projection::MixerOutput) == Some((self.value_dim as nat, hidden))
        &&& env.conv == (self.conv_dim as nat, self.conv_kernel_size as nat)
        &&& (env.leaf)(Slot::DtBias) == Some(seq![heads])
        &&& (env.leaf)(Slot::NegativeDecay) == Some(seq![heads])
        &&& (env.leaf)(Slot::GatedNorm) == Some(seq![self.head_v_dim as nat])
        &&& primed ==> (env.leaf)(Slot::ConvState) == Some(
            state_space::conv_state_shape(step.batch, self.conv_dim, self.conv_kernel_size),
        ) && (env.leaf)(Slot::RecurrentState) == Some(
            delta::state_shape(self.delta_dims(step)),
        )
    }
}

/// A part of the channels split into heads.
proof fn lemma_part(
    x: Rc<Node>,
    env: graph::Shapes,
    step: Step,
    start: usize,
    count: usize,
    heads: nat,
    width: usize,
    total: nat,
)
    requires
        graph::shape(&x, env) == Some(seq![step.batch as nat, step.len as nat, total]),
        start + count <= total,
        count == heads * width,
        step.batch > 0,
        step.len > 0,
        width > 0,
    ensures
        graph::shape(&split(&narrow(&x, 2, start, count), step, width), env) == Some(
            seq![step.batch as nat, step.len as nat, heads, width as nat],
        ),
        graph::closed(&x) ==> graph::closed(&split(&narrow(&x, 2, start, count), step, width)),
{
    let (b, s) = (step.batch as nat, step.len as nat);
    assert(seq![b, s, total].update(2, count as nat) =~= seq![b, s, count as nat]);
    shapes::lemma_split_into(step.batch, step.len, count as nat, heads, width);
}

/// The convolution gives each channel of each position a value.
proof fn lemma_convolution(
    dims: DeltaNetDims,
    x: Rc<Node>,
    step: Step,
    kept: bool,
    env: graph::Shapes,
    hidden: nat,
)
    requires
        dims.runnable(),
        step.len >= 1,
        kept ==> step.len == 1,
        dims.described_by(env, step, hidden, kept),
        graph::closed(&x),
        graph::shape(&x, env) == Some(seq![step.batch as nat, step.len as nat, hidden]),
    ensures
        graph::shape(&dims.convolution(x, step, kept), env) == Some(
            seq![step.batch as nat, step.len as nat, dims.conv_dim as nat],
        ),
        graph::closed(&dims.convolution(x, step, kept)),
        graph::shape(&dims.conv_state(x, step, kept), env) == Some(
            state_space::conv_state_shape(step.batch, dims.conv_dim, dims.conv_kernel_size),
        ),
{
    let (b, s, c) = (step.batch as nat, step.len as nat, dims.conv_dim as nat);
    let k = dims.conv_kernel_size as nat;
    state_space::lemma_linear_of(Projection::MixedQkv, x, env, b, s, hidden, c);
    assert(graph::transposed(Some(seq![b, s, c]), 1, 2)->0 =~= seq![b, c, s]);
    let mixed = dims.mixed(x);
    assert(graph::shape(&mixed, env) == Some(seq![b, c, s]));
    assert(graph::closed(&mixed));
    state_space::lemma_padded(
        mixed,
        kept,
        step.batch,
        dims.conv_dim,
        dims.conv_kernel_size,
        step.len,
        env,
    );
    let input = dims.conv_input(x, step, kept);
    assert(seq![b, c, (k - 1 + s) as nat].update(2, s) =~= seq![b, c, s]);
    assert(graph::shape(&conv(&input), env) == Some(seq![b, c, s]));
    assert(graph::transposed(Some(seq![b, c, s]), 1, 2)->0 =~= seq![b, s, c]);
}

proof fn lemma_delta_inputs(
    dims: DeltaNetDims,
    x: Rc<Node>,
    step: Step,
    kept: bool,
    env: graph::Shapes,
    hidden: nat,
)
    requires
        dims.runnable(),
        dims.consistent(),
        step.len >= 1,
        step.batch >= 1,
        kept ==> step.len == 1,
        dims.described_by(env, step, hidden, kept),
        graph::closed(&x),
        graph::shape(&x, env) == Some(seq![step.batch as nat, step.len as nat, hidden]),
    ensures
        dims.delta_inputs(x, step, kept).fit(dims.delta_dims(step), env),
{
    let (b, s, c) = (step.batch as nat, step.len as nat, dims.conv_dim as nat);
    let heads = dims.num_v_heads as nat;
    let key_heads = dims.num_k_heads as nat;
    let (key, hk) = (dims.key_dim, dims.head_k_dim);
    lemma_convolution(dims, x, step, kept, env, hidden);
    let qkv = dims.convolution(x, step, kept);
    let (n, kh) = (dims.repeats(), dims.key_heads(step));
    lemma_repeats(dims);
    assert(key == key_heads * hk as nat) by (nonlinear_arith)
        requires
            key == hk * key_heads,
    ;
    assert(dims.value_dim == heads * dims.head_v_dim as nat) by (nonlinear_arith)
        requires
            dims.value_dim == dims.head_v_dim * heads,
    ;
    lemma_part(qkv, env, step, 0, key, key_heads, hk, c);
    lemma_part(qkv, env, step, key, key, key_heads, hk, c);
    lemma_part(
        qkv,
        env,
        step,
        (key * 2) as usize,
        dims.value_dim,
        heads,
        dims.head_v_dim,
        c,
    );
    shapes::lemma_repeat_interleave(split(&narrow(&qkv, 2, 0, key), step, hk), n, kh, env);
    shapes::lemma_repeat_interleave(split(&narrow(&qkv, 2, key, key), step, hk), n, kh, env);
    lemma_decay_and_beta(x, env, b, s, hidden, heads);
}

/// The decay and the weight of a step, one for each head of each position.
proof fn lemma_decay_and_beta(
    x: Rc<Node>,
    env: graph::Shapes,
    b: nat,
    s: nat,
    hidden: nat,
    heads: nat,
)
    requires
        graph::closed(&x),
        graph::shape(&x, env) == Some(seq![b, s, hidden]),
        (env.linear)(Projection::Alpha) == Some((hidden, heads)),
        (env.linear)(Projection::Beta) == Some((hidden, heads)),
        (env.leaf)(Slot::DtBias) == Some(seq![heads]),
        (env.leaf)(Slot::NegativeDecay) == Some(seq![heads]),
    ensures
        ({
            let states = apply(SameShape::Contiguous, &x);
            let decay = pair(
                Pairwise::BroadcastMul,
                &leaf(Slot::NegativeDecay),
                &softplus(&linear(Projection::Alpha, &states)),
            );
            let beta = apply(SameShape::Sigmoid, &linear(Projection::Beta, &states));
            &&& graph::shape(&decay, env) == Some(seq![b, s, heads])
            &&& graph::closed(&decay)
            &&& graph::shape(&beta, env) == Some(seq![b, s, heads])
            &&& graph::closed(&beta)
        }),
{
    state_space::lemma_linear_of(Projection::Alpha, x, env, b, s, hidden, heads);
    state_space::lemma_linear_of(Projection::Beta, x, env, b, s, hidden, heads);
    let alpha = linear(Projection::Alpha, &apply(SameShape::Contiguous, &x));
    shapes::lemma_softplus(alpha, env, seq![b, s, heads]);
    shapes::lemma_broadcast_last(seq![b, s, heads], heads);
}

/// The gated norm of rows has their shape.
proof fn lemma_rms_norm_gated(
    x: Rc<Node>,
    gate: Rc<Node>,
    eps: u64,
    env: graph::Shapes,
    n: nat,
    d: nat,
)
    requires
        graph::shape(&x, env) == Some(seq![n, d]),
        graph::shape(&gate, env) == Some(seq![n, d]),
        (env.leaf)(Slot::GatedNorm) == Some(seq![d]),
    ensures
        graph::shape(&rms_norm_gated(&x, &gate, eps), env) == Some(seq![n, d]),
{
    shapes::lemma_mean_square_norm(
        apply(SameShape::Single, &x),
        FloatSetting::Double(eps),
        env,
        seq![n, d],
    );
    shapes::lemma_broadcast_last(seq![n, d], d);
    shapes::lemma_broadcast2(seq![n, d], seq![n, d]);
}

/// Answers turned into the output.
proof fn lemma_output(
    answered: Rc<Node>,
    x: Rc<Node>,
    eps: u64,
    step: Step,
    env: graph::Shapes,
    hidden: nat,
    h: nat,
    width: usize,
)
    requires
        step.batch > 0,
        step.len > 0,
        width > 0,
        graph::shape(&x, env) == Some(seq![step.batch as nat, step.len as nat, hidden]),
        graph::shape(&answered, env) == Some(
            seq![step.batch as nat, step.len as nat, h, width as nat],
        ),
        (env.linear)(Projection::MixerGate) == Some((hidden, h * width as nat)),
        (env.leaf)(Slot::GatedNorm) == Some(seq![width as nat]),
        (env.linear)(Projection::MixerOutput) == Some((h * width as nat, hidden)),
    ensures
        graph::shape(
            &linear(
                Projection::MixerOutput,
                &reshape(
                    &rms_norm_gated(
                        &reshape(
                            &pair(
                                Pairwise::FormatOf,
                                &answered,
                                &apply(SameShape::Contiguous, &x),
                            ),
                            Dims::HoleOne(width),
                        ),
                        &reshape(
                            &split(
                                &linear(
                                    Projection::MixerGate,
                                    &apply(SameShape::Contiguous, &x),
                                ),
                                step,
                                width,
                            ),
                            Dims::HoleOne(width),
                        ),
                        eps,
                    ),
                    Dims::TwoHole(step.batch, step.len),
                ),
            ),
            env,
        ) == Some(seq![step.batch as nat, step.len as nat, hidden]),
{
    let (b, s, d) = (step.batch as nat, step.len as nat, width as nat);
    let n = b * s * h;
    let value = h * d;
    shapes::lemma_rows(b, s, h, width);
    let cast = pair(Pairwise::FormatOf, &answered, &apply(SameShape::Contiguous, &x));
    let rows = reshape(&cast, Dims::HoleOne(width));
    assert(graph::shape(&rows, env) == Some(seq![n, d]));
    state_space::lemma_linear_of(Projection::MixerGate, x, env, b, s, hidden, value);
    shapes::lemma_split_into(step.batch, step.len, value, h, width);
    let z = split(
        &linear(Projection::MixerGate, &apply(SameShape::Contiguous, &x)),
        step,
        width,
    );
    let gate = reshape(&z, Dims::HoleOne(width));
    assert(graph::shape(&gate, env) == Some(seq![n, d]));
    lemma_rms_norm_gated(rows, gate, eps, env, n, d);
    shapes::lemma_rows_joined_into(step.batch, step.len, h, d);
    assert((step.batch * step.len * h) as nat == n);
    assert(seq![b, s, value].update(2, hidden) =~= seq![b, s, hidden]);
}

/// A step of a recurrent layer has the shape of its input, and leaves states of the shapes in
/// which the layer keeps them, whether it continued from kept states or not.
pub proof fn delta_net_fits(
    dims: DeltaNetDims,
    x: Rc<Node>,
    step: Step,
    kept: bool,
    env: graph::Shapes,
    hidden: nat,
)
    requires
        dims.runnable(),
        dims.consistent(),
        step.len >= 1,
        step.batch >= 1,
        kept ==> step.len == 1,
        dims.described_by(env, step, hidden, kept),
        graph::closed(&x),
        graph::shape(&x, env) == Some(seq![step.batch as nat, step.len as nat, hidden]),
    ensures
        graph::shape(&dims.output(x, step, kept), env) == Some(
            seq![step.batch as nat, step.len as nat, hidden],
        ),
        graph::shape(&dims.conv_state(x, step, kept), env) == Some(
            state_space::conv_state_shape(step.batch, dims.conv_dim, dims.conv_kernel_size),
        ),
        graph::shape(&scan_state(&dims.rule(x, step, kept)), env) == Some(
            delta::state_shape(dims.delta_dims(step)),
        ),
{
    let (inputs, delta_dims) = (dims.delta_inputs(x, step, kept), dims.delta_dims(step));
    assert(delta_dims.heads == dims.num_v_heads) by {
        lemma_repeats(dims);
    }
    lemma_delta_inputs(dims, x, step, kept, env, hidden);
    lemma_convolution(dims, x, step, kept, env, hidden);
    delta::delta_rule_keeps_its_state(&inputs, delta_dims, kept, env);
    assert(dims.value_dim == dims.num_v_heads as nat * dims.head_v_dim as nat)
        by (nonlinear_arith)
        requires
            dims.value_dim == dims.head_v_dim * dims.num_v_heads,
    ;
    lemma_output(
        answers(&dims.rule(x, step, kept)),
        x,
        dims.norm_eps,
        step,
        env,
        hidden,
        dims.num_v_heads as nat,
        dims.head_v_dim,
    );
}

}
