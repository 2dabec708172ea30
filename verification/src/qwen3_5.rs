//! The dense model: which weights it needs, and how a forward pass goes.
use crate::attention::{for_each_query_head, gated, scores};
use crate::blocks::mean_square_norm;
use crate::delta_net::{DeltaNetDims, Qwen3_5GatedDeltaNet};
use crate::graph;
use crate::graph::{Dims, FloatSetting, Node, Pairwise, Projection, SameShape, Scalar, Slot};
use crate::ops::{
    apply, cat, causal, embed, expand, leaf, linear, narrow, pair, plus, reshape, rope, same,
    scan_state, transpose, zeros_model,
};
use crate::pass::{ForwardPass, Kept, LayerPass, Step};
use crate::shapes;
use crate::text;
use std::rc::Rc;
use vstd::prelude::*;

verus! {

broadcast use {graph::group_shape, graph::group_closed};

/// The configuration of a model.
#[derive(Debug)]
pub struct Config {
    pub text_config: TextConfig,
}

/// The configuration of the language part. Floating-point numbers are given by their bits.
#[derive(Debug)]
pub struct TextConfig {
    pub vocab_size: usize,
    pub hidden_size: usize,
    pub intermediate_size: usize,
    pub num_hidden_layers: usize,
    pub num_attention_heads: usize,
    pub num_key_value_heads: usize,
    pub head_dim: Option<usize>,
    pub max_position_embeddings: usize,
    pub rms_norm_eps: u64,
    pub rope_parameters: RopeParameters,
    pub attention_bias: bool,
    pub layer_types: Vec<String>,
    pub linear_num_key_heads: usize,
    pub linear_num_value_heads: usize,
    pub linear_key_head_dim: usize,
    pub linear_value_head_dim: usize,
    pub linear_conv_kernel_dim: usize,
}

/// The base of the rotary embedding, by its bits.
#[derive(Debug, Clone, Copy, PartialEq, Eq, Structural)]
pub struct RopeParameters {
    pub rope_theta: u64,
}

/// A weight matrix of a linear map, found under `path`; with a bias beside it if it has one.
#[derive(Debug)]
pub struct LinearWeights {
    pub path: String,
    pub in_dim: usize,
    pub out_dim: usize,
    pub with_bias: bool,
}

/// The weight of a norm, found under `path`.
#[derive(Debug)]
pub struct Qwen3_5RmsNorm {
    pub path: String,
    pub dim: usize,
    /// The bits of the number that is added to the mean square.
    pub eps: u64,
}

/// A name below a path.
pub open spec fn below(path: Seq<char>, name: Seq<char>) -> Seq<char> {
    if path.len() == 0 {
        name
    } else {
        path + "."@ + name
    }
}

/// A name below a path.
pub fn child(path: &str, name: &str) -> (r: String)
    ensures
        r@ == below(path@, name@),
{
    if path.unicode_len() == 0 {
        return name.to_owned();
    }
    let mut r = text::concat(path, ".");
    r.append(name);
    r
}

impl LinearWeights {
    pub open spec fn is(self, path: Seq<char>, in_dim: int, out_dim: int, with_bias: bool) -> bool {
        &&& self.path@ == path
        &&& self.in_dim == in_dim
        &&& self.out_dim == out_dim
        &&& self.with_bias == with_bias
    }
}

impl Config {
    /// The width of an attention head: the configured one, or the heads share the hidden size.
    pub open spec fn head_width(self) -> usize {
        match self.text_config.head_dim {
            Some(width) => width,
            None => self.text_config.hidden_size / self.text_config.num_attention_heads,
        }
    }

    /// The width of an attention head.
    pub fn head_dim(&self) -> (r: usize)
        requires
            self.text_config.num_attention_heads != 0,
        ensures
            r == self.head_width(),
    {
        let shared: usize = self.text_config.hidden_size / self.text_config.num_attention_heads;
        match self.text_config.head_dim {
            Some(width) => width,
            None => shared,
        }
    }

    /// The base of the rotary embedding, by its bits.
    pub fn rope_theta(&self) -> (r: u64)
        ensures
            r == self.text_config.rope_parameters.rope_theta,
    {
        self.text_config.rope_parameters.rope_theta
    }
}

/// A linear map with an optional bias.
pub fn linear_b(in_dim: usize, out_dim: usize, with_bias: bool, path: String) -> (r: LinearWeights)
    ensures
        r.is(path@, in_dim as int, out_dim as int, with_bias),
{
    LinearWeights { path, in_dim, out_dim, with_bias }
}

/// A linear map without a bias.
pub fn linear_no_bias(in_dim: usize, out_dim: usize, path: String) -> (r: LinearWeights)
    ensures
        r.is(path@, in_dim as int, out_dim as int, false),
{
    LinearWeights { path, in_dim, out_dim, with_bias: false }
}

/// The norm of `x` with the weight in a slot: the root mean square of the last dimension is made
/// one, and the result scaled by one plus the weight. Half-precision numbers are widened meanwhile.
#[verifier::allow_in_spec]
pub fn normed(weight: Slot, eps: u64, x: &Rc<Node>) -> Rc<Node>
    returns
        pair(
            Pairwise::FormatOf,
            &pair(
                Pairwise::BroadcastMul,
                &mean_square_norm(&apply(SameShape::Widen, x), FloatSetting::Double(eps)),
                &plus(&pair(Pairwise::WidenedFormatOf, &leaf(weight), x), Scalar::One),
            ),
            x,
        ),
{
    let wide = apply(SameShape::Widen, x);
    pair(
        Pairwise::FormatOf,
        &pair(
            Pairwise::BroadcastMul,
            &mean_square_norm(&wide, FloatSetting::Double(eps)),
            &plus(&pair(Pairwise::WidenedFormatOf, &leaf(weight), x), Scalar::One),
        ),
        x,
    )
}

impl Qwen3_5RmsNorm {
    /// The norm of vectors of `dim` elements whose weight stands below `path`.
    pub fn new(dim: usize, eps: u64, path: String) -> (r: Qwen3_5RmsNorm)
        ensures
            r.is(path@, dim, eps),
    {
        Qwen3_5RmsNorm { path, dim, eps }
    }

    pub open spec fn is(self, path: Seq<char>, dim: usize, eps: u64) -> bool {
        self.path@ == path && self.dim == dim && self.eps == eps
    }

    /// The norm of `x`, the weight being in the slot `weight`.
    pub fn forward(&self, weight: Slot, x: &Rc<Node>) -> (r: Rc<Node>)
        ensures
            r == normed(weight, self.eps, x),
    {
        normed(weight, self.eps, x)
    }
}

/// The norm keeps the shape.
pub proof fn norm_keeps_the_shape(
    weight: Slot,
    eps: u64,
    x: Rc<Node>,
    env: graph::Shapes,
    d: Seq<nat>,
)
    requires
        d.len() >= 1,
        weight != Slot::Carry,
        graph::shape(&x, env) == Some(d),
        (env.leaf)(weight) == Some(seq![d.last()]),
    ensures
        graph::shape(&normed(weight, eps, &x), env) == Some(d),
        graph::closed(&x) ==> graph::closed(&normed(weight, eps, &x)),
{
    shapes::lemma_mean_square_norm(
        apply(SameShape::Widen, &x),
        FloatSetting::Double(eps),
        env,
        d,
    );
    shapes::lemma_broadcast_last(d, d.last());
}

/// The tables of the rotary embedding.
#[derive(Debug, Clone, Copy, PartialEq, Eq, Structural)]
pub struct Qwen3_5TextRotaryEmbedding {
    /// The width of a head.
    pub dim: usize,
    /// The number of positions.
    pub max_seq_len: usize,
    /// The base, by its bits.
    pub theta: u64,
}

/// The rotary embedding of `x` at the positions of the step.
#[verifier::allow_in_spec]
pub fn rotated(x: &Rc<Node>, step: Step) -> Rc<Node>
    returns
        rope(
            &apply(SameShape::Contiguous, x),
            &narrow(&leaf(Slot::Cos), 0, step.offset, step.len),
            &narrow(&leaf(Slot::Sin), 0, step.offset, step.len),
        ),
{
    rope(
        &apply(SameShape::Contiguous, x),
        &narrow(&leaf(Slot::Cos), 0, step.offset, step.len),
        &narrow(&leaf(Slot::Sin), 0, step.offset, step.len),
    )
}

impl Qwen3_5TextRotaryEmbedding {
    /// The tables for the heads of a model.
    pub fn new(cfg: &Config) -> (r: Qwen3_5TextRotaryEmbedding)
        requires
            cfg.text_config.num_attention_heads != 0,
        ensures
            r.dim == cfg.head_width(),
            r.max_seq_len == cfg.text_config.max_position_embeddings,
            r.theta == cfg.text_config.rope_parameters.rope_theta,
    {
        Qwen3_5TextRotaryEmbedding {
            dim: cfg.head_dim(),
            max_seq_len: cfg.text_config.max_position_embeddings,
            theta: cfg.rope_theta(),
        }
    }

    /// Queries and keys at the positions of the step.
    pub fn apply(&self, q: &Rc<Node>, k: &Rc<Node>, step: Step) -> (r: (Rc<Node>, Rc<Node>))
        ensures
            r.0 == rotated(q, step),
            r.1 == rotated(k, step),
    {
        (rotated(q, step), rotated(k, step))
    }
}

/// Full attention, and whether keys and values are cached.
#[derive(Debug)]
pub struct Qwen3_5Attention {
    pub q_proj: LinearWeights,
    pub k_proj: LinearWeights,
    pub v_proj: LinearWeights,
    pub o_proj: LinearWeights,
    pub q_norm: Qwen3_5RmsNorm,
    pub k_norm: Qwen3_5RmsNorm,
    pub rotary_emb: Qwen3_5TextRotaryEmbedding,
    pub dims: AttentionDims,
    pub cached: bool,
}

/// The widths of an attention layer.
#[derive(Debug, Clone, Copy, PartialEq, Eq, Structural)]
pub struct AttentionDims {
    pub num_heads: usize,
    pub num_kv_heads: usize,
    pub num_kv_groups: usize,
    pub head_dim: usize,
}

/// The output of an attention layer, and the keys and values to cache.
#[derive(Debug)]
pub struct AttentionPass {
    pub output: Rc<Node>,
    pub keys: Rc<Node>,
    pub values: Rc<Node>,
}

/// `x` split into heads.
#[verifier::allow_in_spec]
pub fn in_heads(x: &Rc<Node>, step: Step, heads: usize, width: usize) -> Rc<Node>
    returns
        reshape(x, Dims::Four(step.batch, step.len, heads, width)),
{
    reshape(x, Dims::Four(step.batch, step.len, heads, width))
}

/// `x` behind what was cached before it.
#[verifier::allow_in_spec]
pub fn behind(x: &Rc<Node>, cache: Slot, cached: bool) -> Rc<Node>
    returns
        if cached {
            cat(&leaf(cache), x, 2)
        } else {
            *x
        },
{
    if cached {
        cat(&leaf(cache), x, 2)
    } else {
        same(x)
    }
}

/// Scores with the mask added.
#[verifier::allow_in_spec]
pub fn hiding_later(scores: &Rc<Node>, masked: bool) -> Rc<Node>
    returns
        if masked {
            pair(Pairwise::BroadcastAdd, scores, &leaf(Slot::Mask))
        } else {
            *scores
        },
{
    if masked {
        pair(Pairwise::BroadcastAdd, scores, &leaf(Slot::Mask))
    } else {
        same(scores)
    }
}

impl AttentionDims {
    /// The widths that are multiplied fit in a machine word.
    pub open spec fn fits(self) -> bool {
        &&& self.num_heads * self.head_dim * 2 <= usize::MAX
        &&& self.head_dim * 2 <= usize::MAX
        &&& self.num_kv_heads * self.head_dim <= usize::MAX
    }
}

/// What the formulas of an attention layer depend on.
pub struct AttentionState {
    pub dims: AttentionDims,
    pub query_eps: u64,
    pub key_eps: u64,
    pub cached: bool,
}

impl View for Qwen3_5Attention {
    type V = AttentionState;

    open spec fn view(&self) -> AttentionState {
        AttentionState {
            dims: self.dims,
            query_eps: self.q_norm.eps,
            key_eps: self.k_norm.eps,
            cached: self.cached,
        }
    }
}

impl AttentionState {
    /// The queries of all heads, each with its gate behind it.
    pub open spec fn query_and_gate(self, x: Rc<Node>, step: Step) -> Rc<Node> {
        in_heads(
            &linear(Projection::Query, &x),
            step,
            self.dims.num_heads,
            (self.dims.head_dim * 2) as usize,
        )
    }

    /// The queries before the rotary embedding.
    pub open spec fn query(self, x: Rc<Node>, step: Step) -> Rc<Node> {
        transpose(
            &normed(
                Slot::QueryNorm,
                self.query_eps,
                &narrow(&self.query_and_gate(x, step), 3, 0, self.dims.head_dim),
            ),
            1,
            2,
        )
    }

    /// Output gates.
    pub open spec fn gate(self, x: Rc<Node>, step: Step) -> Rc<Node> {
        narrow(
            &self.query_and_gate(x, step),
            3,
            self.dims.head_dim,
            self.dims.head_dim,
        )
    }

    /// The keys before the rotary embedding.
    pub open spec fn key(self, x: Rc<Node>, step: Step) -> Rc<Node> {
        transpose(
            &normed(
                Slot::KeyNorm,
                self.key_eps,
                &in_heads(
                    &linear(Projection::Key, &x),
                    step,
                    self.dims.num_kv_heads,
                    self.dims.head_dim,
                ),
            ),
            1,
            2,
        )
    }

    /// The values.
    pub open spec fn value(self, x: Rc<Node>, step: Step) -> Rc<Node> {
        transpose(
            &in_heads(
                &linear(Projection::Value, &x),
                step,
                self.dims.num_kv_heads,
                self.dims.head_dim,
            ),
            1,
            2,
        )
    }

    /// The keys of all positions so far.
    pub open spec fn all_keys(self, x: Rc<Node>, step: Step) -> Rc<Node> {
        behind(&rotated(&self.key(x, step), step), Slot::CachedKeys, self.cached)
    }

    /// The values of all positions so far.
    pub open spec fn all_values(self, x: Rc<Node>, step: Step) -> Rc<Node> {
        behind(&self.value(x, step), Slot::CachedValues, self.cached)
    }

    /// What the heads attend to, ungated:
    /// `softmax(query * keys^T / sqrt(width) + mask) * values`.
    pub open spec fn context(self, x: Rc<Node>, step: Step) -> Rc<Node> {
        context_of(
            &rotated(&self.query(x, step), step),
            &for_each_query_head(&self.all_keys(x, step), self.dims.num_kv_groups),
            &for_each_query_head(&self.all_values(x, step), self.dims.num_kv_groups),
            self.dims,
            step,
        )
    }

    /// The output of the layer.
    pub open spec fn output(self, x: Rc<Node>, step: Step) -> Rc<Node> {
        linear(
            Projection::Output,
            &reshape(
                &gated(&self.context(x, step), &self.gate(x, step)),
                Dims::Three(
                    step.batch,
                    step.len,
                    (self.dims.num_heads * self.dims.head_dim) as usize,
                ),
            ),
        )
    }
}

/// `softmax(query * keys^T / sqrt(width) + mask) * values`, positions before heads.
#[verifier::allow_in_spec]
pub fn context_of(
    query: &Rc<Node>,
    keys: &Rc<Node>,
    values: &Rc<Node>,
    dims: AttentionDims,
    step: Step,
) -> Rc<Node>
    returns
        in_heads(
            &transpose(
                &pair(
                    Pairwise::MatMul,
                    &apply(
                        SameShape::Softmax,
                        &hiding_later(&scores(query, keys, dims.head_dim), step.masked),
                    ),
                    values,
                ),
                1,
                2,
            ),
            step,
            dims.num_heads,
            dims.head_dim,
        ),
{
    let weights = apply(
        SameShape::Softmax,
        &hiding_later(&scores(query, keys, dims.head_dim), step.masked),
    );
    in_heads(
        &transpose(&pair(Pairwise::MatMul, &weights, values), 1, 2),
        step,
        dims.num_heads,
        dims.head_dim,
    )
}

impl Config {
    /// The widths of the attention layers.
    pub open spec fn attention_dims(self) -> AttentionDims {
        AttentionDims {
            num_heads: self.text_config.num_attention_heads,
            num_kv_heads: self.text_config.num_key_value_heads,
            num_kv_groups: self.text_config.num_attention_heads
                / self.text_config.num_key_value_heads,
            head_dim: self.head_width(),
        }
    }
}

impl Qwen3_5Attention {
    /// The layer needs the weights that the configuration asks for: the query projection holds a
    /// gate for each query.
    pub open spec fn is(self, cfg: Config, path: Seq<char>) -> bool {
        let d = cfg.attention_dims();
        let hidden = cfg.text_config.hidden_size as int;
        let bias = cfg.text_config.attention_bias;
        let eps = cfg.text_config.rms_norm_eps;
        &&& self.dims == d
        &&& self.q_proj.is(
            below(path, "q_proj"@),
            hidden,
            d.num_heads * d.head_dim * 2,
            bias,
        )
        &&& self.k_proj.is(below(path, "k_proj"@), hidden, d.num_kv_heads * d.head_dim, bias)
        &&& self.v_proj.is(below(path, "v_proj"@), hidden, d.num_kv_heads * d.head_dim, bias)
        &&& self.o_proj.is(below(path, "o_proj"@), d.num_heads * d.head_dim, hidden, bias)
        &&& self.q_norm.is(below(path, "q_norm"@), d.head_dim, eps)
        &&& self.k_norm.is(below(path, "k_norm"@), d.head_dim, eps)
    }

    /// An attention layer whose weights stand below `path`, with nothing cached.
    pub fn new(cfg: &Config, rotary_emb: Qwen3_5TextRotaryEmbedding, path: &str) -> (r:
        Qwen3_5Attention)
        requires
            cfg.text_config.num_attention_heads != 0,
            cfg.text_config.num_key_value_heads != 0,
            cfg.attention_dims().fits(),
        ensures
            r.is(*cfg, path@),
            r.rotary_emb == rotary_emb,
            !r.cached,
    {
        let head_dim: usize = cfg.head_dim();
        let num_heads: usize = cfg.text_config.num_attention_heads;
        let num_kv_heads: usize = cfg.text_config.num_key_value_heads;
        let num_kv_groups: usize = num_heads / num_kv_heads;
        let hidden: usize = cfg.text_config.hidden_size;
        let bias = cfg.text_config.attention_bias;
        let eps: u64 = cfg.text_config.rms_norm_eps;
        assert(num_heads * head_dim <= num_heads * head_dim * 2);
        let width: usize = num_heads * head_dim;
        let kv_width: usize = num_kv_heads * head_dim;
        Qwen3_5Attention {
            q_proj: linear_b(hidden, width * 2, bias, child(path, "q_proj")),
            k_proj: linear_b(hidden, kv_width, bias, child(path, "k_proj")),
            v_proj: linear_b(hidden, kv_width, bias, child(path, "v_proj")),
            o_proj: linear_b(width, hidden, bias, child(path, "o_proj")),
            q_norm: Qwen3_5RmsNorm::new(head_dim, eps, child(path, "q_norm")),
            k_norm: Qwen3_5RmsNorm::new(head_dim, eps, child(path, "k_norm")),
            rotary_emb,
            dims: AttentionDims { num_heads, num_kv_heads, num_kv_groups, head_dim },
            cached: false,
        }
    }

    /// Only the cache differs.
    pub open spec fn same_weights(self, other: Qwen3_5Attention) -> bool {
        &&& self.q_proj == other.q_proj
        &&& self.k_proj == other.k_proj
        &&& self.v_proj == other.v_proj
        &&& self.o_proj == other.o_proj
        &&& self.q_norm == other.q_norm
        &&& self.k_norm == other.k_norm
        &&& self.rotary_emb == other.rotary_emb
        &&& self.dims == other.dims
    }

    /// Attention of the positions of `x` to themselves and to what is cached. The keys and values
    /// of the step join the cache.
    pub fn forward(&mut self, x: &Rc<Node>, step: Step) -> (r: AttentionPass)
        requires
            old(self).dims.fits(),
        ensures
            r.output == old(self)@.output(*x, step),
            r.keys == old(self)@.all_keys(*x, step),
            r.values == old(self)@.all_values(*x, step),
            final(self).cached,
            final(self).same_weights(*old(self)),
    {
        let dims = self.dims;
        let d: usize = dims.head_dim;
        assert(dims.num_heads * d <= dims.num_heads * d * 2);
        let width: usize = dims.num_heads * d;
        let both = in_heads(&linear(Projection::Query, x), step, dims.num_heads, d * 2);
        let query = transpose(
            &self.q_norm.forward(Slot::QueryNorm, &narrow(&both, 3, 0, d)),
            1,
            2,
        );
        let gate = narrow(&both, 3, d, d);
        let key = transpose(
            &self.k_norm.forward(
                Slot::KeyNorm,
                &in_heads(&linear(Projection::Key, x), step, dims.num_kv_heads, d),
            ),
            1,
            2,
        );
        let value = transpose(
            &in_heads(&linear(Projection::Value, x), step, dims.num_kv_heads, d),
            1,
            2,
        );
        let (query, key) = self.rotary_emb.apply(&query, &key, step);
        let keys = behind(&key, Slot::CachedKeys, self.cached);
        let values = behind(&value, Slot::CachedValues, self.cached);
        let context = context_of(
            &query,
            &for_each_query_head(&keys, dims.num_kv_groups),
            &for_each_query_head(&values, dims.num_kv_groups),
            dims,
            step,
        );
        let output = linear(
            Projection::Output,
            &reshape(&gated(&context, &gate), Dims::Three(step.batch, step.len, width)),
        );
        self.cached = true;
        AttentionPass { output, keys, values }
    }
}

/// The feed-forward part: `down(act(gate(x)) * up(x))`, with the configured activation.
#[verifier::allow_in_spec]
pub fn feed_forward(x: &Rc<Node>) -> Rc<Node>
    returns
        linear(
            Projection::Down,
            &pair(
                Pairwise::Mul,
                &apply(SameShape::HiddenAct, &linear(Projection::Gate, x)),
                &linear(Projection::Up, x),
            ),
        ),
{
    linear(
        Projection::Down,
        &pair(
            Pairwise::Mul,
            &apply(SameShape::HiddenAct, &linear(Projection::Gate, x)),
            &linear(Projection::Up, x),
        ),
    )
}

/// The weights of the feed-forward part.
#[derive(Debug)]
pub struct Qwen3_5MLP {
    pub gate_proj: LinearWeights,
    pub up_proj: LinearWeights,
    pub down_proj: LinearWeights,
}

impl Qwen3_5MLP {
    pub open spec fn is(self, cfg: Config, path: Seq<char>) -> bool {
        let hidden = cfg.text_config.hidden_size as int;
        let inner = cfg.text_config.intermediate_size as int;
        &&& self.gate_proj.is(below(path, "gate_proj"@), hidden, inner, false)
        &&& self.up_proj.is(below(path, "up_proj"@), hidden, inner, false)
        &&& self.down_proj.is(below(path, "down_proj"@), inner, hidden, false)
    }

    /// The part whose weights stand below `path`.
    pub fn new(cfg: &Config, path: &str) -> (r: Qwen3_5MLP)
        ensures
            r.is(*cfg, path@),
    {
        let hidden: usize = cfg.text_config.hidden_size;
        let inner: usize = cfg.text_config.intermediate_size;
        Qwen3_5MLP {
            gate_proj: linear_no_bias(hidden, inner, child(path, "gate_proj")),
            up_proj: linear_no_bias(hidden, inner, child(path, "up_proj")),
            down_proj: linear_no_bias(inner, hidden, child(path, "down_proj")),
        }
    }

    /// The feed-forward part of `x`.
    pub fn forward(&self, x: &Rc<Node>) -> (r: Rc<Node>)
        ensures
            r == feed_forward(x),
    {
        feed_forward(x)
    }
}

/// `x` with `mixed` added, and the feed-forward part of the sum added to that.
#[verifier::allow_in_spec]
pub fn with_feed_forward(x: &Rc<Node>, mixed: &Rc<Node>, eps: u64) -> Rc<Node>
    returns
        pair(
            Pairwise::Add,
            &pair(Pairwise::Add, x, mixed),
            &feed_forward(&normed(Slot::MlpNorm, eps, &pair(Pairwise::Add, x, mixed))),
        ),
{
    let sum = pair(Pairwise::Add, x, mixed);
    pair(Pairwise::Add, &sum, &feed_forward(&normed(Slot::MlpNorm, eps, &sum)))
}

/// What mixes the positions of a layer.
#[derive(Debug)]
pub enum TokenMixer {
    FullAttention(Qwen3_5Attention),
    LinearAttention(Qwen3_5GatedDeltaNet),
}

/// What the formulas of a token mixer depend on.
pub enum MixerState {
    FullAttention(AttentionState),
    LinearAttention { dims: DeltaNetDims, primed: bool },
}

impl View for TokenMixer {
    type V = MixerState;

    open spec fn view(&self) -> MixerState {
        match *self {
            TokenMixer::FullAttention(w) => MixerState::FullAttention(w@),
            TokenMixer::LinearAttention(w) => MixerState::LinearAttention {
                dims: w.dims,
                primed: w.primed,
            },
        }
    }
}

impl MixerState {
    /// The token mixer after a pass: it has something to go on from.
    pub open spec fn after_pass(self) -> MixerState {
        match self {
            MixerState::FullAttention(w) => MixerState::FullAttention(
                AttentionState { cached: true, ..w },
            ),
            MixerState::LinearAttention { dims, .. } => MixerState::LinearAttention {
                dims,
                primed: true,
            },
        }
    }

    /// The token mixer after it has forgotten what it kept.
    pub open spec fn cleared(self) -> MixerState {
        match self {
            MixerState::FullAttention(w) => MixerState::FullAttention(
                AttentionState { cached: false, ..w },
            ),
            MixerState::LinearAttention { dims, .. } => MixerState::LinearAttention {
                dims,
                primed: false,
            },
        }
    }

    /// The token mixer can make a pass.
    pub open spec fn runnable(self) -> bool {
        match self {
            MixerState::FullAttention(w) => w.dims.fits(),
            MixerState::LinearAttention { dims, .. } => dims.runnable(),
        }
    }
}

/// What the formulas of a layer depend on.
pub struct LayerState {
    pub mixer: MixerState,
    pub input_eps: u64,
    pub post_eps: u64,
}

impl View for Qwen3_5DecoderLayer {
    type V = LayerState;

    open spec fn view(&self) -> LayerState {
        LayerState {
            mixer: self.token_mixer@,
            input_eps: self.input_layernorm.eps,
            post_eps: self.post_attention_layernorm.eps,
        }
    }
}

impl LayerState {
    /// The input of the token mixer.
    pub open spec fn normed_input(self, x: Rc<Node>) -> Rc<Node> {
        normed(Slot::MixerNorm, self.input_eps, &x)
    }

    /// What the layer computes from `x`, without the residual and the feed-forward part.
    pub open spec fn mixed(self, x: Rc<Node>, step: Step) -> Rc<Node> {
        let h = self.normed_input(x);
        match self.mixer {
            MixerState::FullAttention(w) => w.output(h, step),
            MixerState::LinearAttention { dims, primed } => dims.output(
                h,
                step,
                primed && step.len == 1,
            ),
        }
    }

    /// The output of the layer.
    pub open spec fn output(self, x: Rc<Node>, step: Step) -> Rc<Node> {
        with_feed_forward(&x, &self.mixed(x, step), self.post_eps)
    }

    /// What the layer leaves behind.
    pub open spec fn keeps(self, kept: Kept, x: Rc<Node>, step: Step) -> bool {
        let h = self.normed_input(x);
        match (self.mixer, kept) {
            (MixerState::FullAttention(w), Kept::Attention { keys, values }) => {
                keys == w.all_keys(h, step) && values == w.all_values(h, step)
            },
            (
                MixerState::LinearAttention { dims, primed },
                Kept::StateSpace { conv_state, recurrent_state },
            ) => {
                let goes_on = primed && step.len == 1;
                conv_state == dims.conv_state(h, step, goes_on) && recurrent_state == scan_state(
                    &dims.rule(h, step, goes_on),
                )
            },
            _ => false,
        }
    }

    /// The layer after a pass: it has something to go on from.
    pub open spec fn after_pass(self) -> LayerState {
        LayerState { mixer: self.mixer.after_pass(), ..self }
    }

    /// The layer after it has forgotten what it kept.
    pub open spec fn cleared(self) -> LayerState {
        LayerState { mixer: self.mixer.cleared(), ..self }
    }

    /// The layer can make a pass.
    pub open spec fn runnable(self) -> bool {
        self.mixer.runnable()
    }
}

impl TokenMixer {
    /// Only what was kept differs.
    pub open spec fn same_weights(self, other: TokenMixer) -> bool {
        match (self, other) {
            (TokenMixer::FullAttention(a), TokenMixer::FullAttention(b)) => a.same_weights(b),
            (TokenMixer::LinearAttention(a), TokenMixer::LinearAttention(b)) => a.same_weights(b),
            _ => false,
        }
    }
}

/// One layer of the model.
#[derive(Debug)]
pub struct Qwen3_5DecoderLayer {
    pub token_mixer: TokenMixer,
    pub mlp: Qwen3_5MLP,
    pub input_layernorm: Qwen3_5RmsNorm,
    pub post_attention_layernorm: Qwen3_5RmsNorm,
}

impl Config {
    /// Whether a layer is recurrent. A layer whose type is not given has full attention.
    pub open spec fn is_linear(self, layer: int) -> bool {
        0 <= layer < self.text_config.layer_types@.len()
            && self.text_config.layer_types@[layer]@ == "linear_attention"@
    }

    /// The numbers that a layer divides by are not zero, and its widths fit in a machine word.
    pub open spec fn layer_loads(self, layer: int) -> bool {
        if self.is_linear(layer) {
            self.delta_net_fits()
        } else {
            self.text_config.num_key_value_heads != 0 && self.attention_dims().fits()
        }
    }

    /// The model can be built.
    pub open spec fn loads(self) -> bool {
        &&& self.text_config.num_attention_heads != 0
        &&& forall|i: int|
            0 <= i < self.text_config.num_hidden_layers ==> #[trigger] self.layer_loads(i)
    }
}

/// Whether `a * b * c` fits in a machine word.
fn product_fits(a: usize, b: usize, c: usize) -> (r: bool)
    requires
        c >= 1,
    ensures
        r == (a * b * c <= usize::MAX),
{
    match a.checked_mul(b) {
        Some(ab) => match ab.checked_mul(c) {
            Some(_) => true,
            None => false,
        },
        None => {
            assert(a * b * c >= a * b) by (nonlinear_arith)
                requires
                    c >= 1,
                    a * b >= 0,
            ;
            false
        },
    }
}

impl Config {
    /// Whether the model can be built.
    pub fn can_load(&self) -> (r: bool)
        ensures
            r == self.loads(),
    {
        let t = &self.text_config;
        if t.num_attention_heads == 0 {
            return false;
        }
        let width: usize = self.head_dim();
        let attention = t.num_key_value_heads != 0 && product_fits(
            t.num_attention_heads,
            width,
            2,
        ) && product_fits(width, 2, 1) && product_fits(t.num_key_value_heads, width, 1);
        let recurrence = if product_fits(t.linear_key_head_dim, t.linear_num_key_heads, 2)
            && product_fits(t.linear_value_head_dim, t.linear_num_value_heads, 1) {
            proof {
                assert(0 <= t.linear_key_head_dim * t.linear_num_key_heads) by (nonlinear_arith);
            }
            let keys: usize = t.linear_key_head_dim * t.linear_num_key_heads;
            let values: usize = t.linear_value_head_dim * t.linear_num_value_heads;
            (keys * 2).checked_add(values).is_some()
        } else {
            proof {
                assert(0 <= t.linear_key_head_dim * t.linear_num_key_heads) by (nonlinear_arith);
                assert(0 <= t.linear_value_head_dim * t.linear_num_value_heads)
                    by (nonlinear_arith);
            }
            false
        };
        let mut i: usize = 0;
        while i < t.num_hidden_layers
            invariant
                0 <= i <= self.text_config.num_hidden_layers,
                *t == self.text_config,
                attention == (t.num_key_value_heads != 0 && self.attention_dims().fits()),
                recurrence == self.delta_net_fits(),
                forall|j: int| 0 <= j < i ==> #[trigger] self.layer_loads(j),
            decreases self.text_config.num_hidden_layers - i,
        {
            let linear = i < t.layer_types.len() && text::same_text(
                t.layer_types[i].as_str(),
                "linear_attention",
            );
            let loads = if linear {
                recurrence
            } else {
                attention
            };
            assert(loads == self.layer_loads(i as int));
            if !loads {
                return false;
            }
            i = i + 1;
        }
        true
    }
}

impl Qwen3_5DecoderLayer {
    /// The layer needs the weights that the configuration asks for.
    pub open spec fn is(self, cfg: Config, layer: int, path: Seq<char>) -> bool {
        let t = cfg.text_config;
        &&& match self.token_mixer {
            TokenMixer::LinearAttention(w) => cfg.is_linear(layer) && w.is(
                cfg,
                below(path, "linear_attn"@),
            ) && w.dims.well_formed(),
            TokenMixer::FullAttention(w) => !cfg.is_linear(layer) && w.is(
                cfg,
                below(path, "self_attn"@),
            ),
        }
        &&& self.mlp.is(cfg, below(path, "mlp"@))
        &&& self.input_layernorm.is(
            below(path, "input_layernorm"@),
            t.hidden_size,
            t.rms_norm_eps,
        )
        &&& self.post_attention_layernorm.is(
            below(path, "post_attention_layernorm"@),
            t.hidden_size,
            t.rms_norm_eps,
        )
    }

    /// Full attention uses these tables of the rotary embedding.
    pub open spec fn rotates_by(self, tables: Qwen3_5TextRotaryEmbedding) -> bool {
        self.token_mixer matches TokenMixer::FullAttention(w) ==> w.rotary_emb == tables
    }

    /// Only what was kept differs.
    pub open spec fn same_weights(self, other: Qwen3_5DecoderLayer) -> bool {
        &&& self.token_mixer.same_weights(other.token_mixer)
        &&& self.mlp == other.mlp
        &&& self.input_layernorm == other.input_layernorm
        &&& self.post_attention_layernorm == other.post_attention_layernorm
    }

    /// A layer whose weights stand below `path`, with nothing kept.
    pub fn new(
        cfg: &Config,
        layer_idx: usize,
        rotary_emb: Qwen3_5TextRotaryEmbedding,
        path: &str,
    ) -> (r: Qwen3_5DecoderLayer)
        requires
            cfg.text_config.num_attention_heads != 0,
            cfg.layer_loads(layer_idx as int),
        ensures
            r.is(*cfg, layer_idx as int, path@),
            r@ == r@.cleared(),
            r.rotates_by(rotary_emb),
    {
        let linear = layer_idx < cfg.text_config.layer_types.len() && text::same_text(
            cfg.text_config.layer_types[layer_idx].as_str(),
            "linear_attention",
        );
        let token_mixer = if linear {
            let path = child(path, "linear_attn");
            TokenMixer::LinearAttention(Qwen3_5GatedDeltaNet::new(cfg, path.as_str()))
        } else {
            let path = child(path, "self_attn");
            TokenMixer::FullAttention(Qwen3_5Attention::new(cfg, rotary_emb, path.as_str()))
        };
        let mlp_path = child(path, "mlp");
        let hidden: usize = cfg.text_config.hidden_size;
        let eps: u64 = cfg.text_config.rms_norm_eps;
        Qwen3_5DecoderLayer {
            token_mixer,
            mlp: Qwen3_5MLP::new(cfg, mlp_path.as_str()),
            input_layernorm: Qwen3_5RmsNorm::new(hidden, eps, child(path, "input_layernorm")),
            post_attention_layernorm: Qwen3_5RmsNorm::new(
                hidden,
                eps,
                child(path, "post_attention_layernorm"),
            ),
        }
    }

    /// One pass through the layer.
    pub fn forward(&mut self, x: &Rc<Node>, step: Step) -> (r: LayerPass)
        requires
            old(self)@.runnable(),
        ensures
            r.output == old(self)@.output(*x, step),
            old(self)@.keeps(r.kept, *x, step),
            final(self)@ == old(self)@.after_pass(),
            final(self).same_weights(*old(self)),
    {
        let h = self.input_layernorm.forward(Slot::MixerNorm, x);
        let eps: u64 = self.post_attention_layernorm.eps;
        match &mut self.token_mixer {
            TokenMixer::FullAttention(attention) => {
                let pass = attention.forward(&h, step);
                LayerPass {
                    output: with_feed_forward(x, &pass.output, eps),
                    kept: Kept::Attention { keys: pass.keys, values: pass.values },
                }
            },
            TokenMixer::LinearAttention(recurrence) => {
                let pass = recurrence.forward(&h, step);
                LayerPass {
                    output: with_feed_forward(x, &pass.output, eps),
                    kept: Kept::StateSpace {
                        conv_state: pass.conv_state,
                        recurrent_state: pass.recurrent_state,
                    },
                }
            },
        }
    }

    /// Forgets what the layer has kept.
    pub fn clear_kv_cache(&mut self)
        ensures
            final(self)@ == old(self)@.cleared(),
            final(self).same_weights(*old(self)),
    {
        match &mut self.token_mixer {
            TokenMixer::FullAttention(attention) => {
                attention.cached = false;
            },
            TokenMixer::LinearAttention(recurrence) => {
                recurrence.primed = false;
            },
        }
    }
}

/// The embedding of the token ids, found under `path`.
#[derive(Debug)]
pub struct EmbeddingWeights {
    pub path: String,
    pub vocab_size: usize,
    pub hidden_size: usize,
}

/// The model without its head, and what its layers have kept.
#[derive(Debug)]
pub struct Model {
    pub embed_tokens: EmbeddingWeights,
    pub rotary_emb: Qwen3_5TextRotaryEmbedding,
    pub layers: Vec<Qwen3_5DecoderLayer>,
    pub norm: Qwen3_5RmsNorm,
}

/// Where the weights of the language part stand.
pub open spec fn model_path() -> Seq<char> {
    below("model"@, "language_model"@)
}

/// Where the weights of a layer stand.
pub open spec fn layer_path(layer: nat) -> Seq<char> {
    below(below(model_path(), "layers"@), text::decimal(layer))
}

/// The mask of a pass over `len` positions after `offset` others: row `i` hides what comes after
/// position `offset + i`.
#[verifier::allow_in_spec]
pub fn prepare_causal_attention_mask(batch: usize, len: usize, offset: usize) -> Rc<Node>
    requires
        len + offset <= usize::MAX,
    returns
        apply(
            SameShape::ModelFormat,
            &expand(
                &mask_rows(len, offset),
                Dims::Four(batch, 1, len, (len + offset) as usize),
            ),
        ),
{
    apply(
        SameShape::ModelFormat,
        &expand(&mask_rows(len, offset), Dims::Four(batch, 1, len, len + offset)),
    )
}

/// The rows of the mask: nothing is hidden among the earlier positions.
#[verifier::allow_in_spec]
pub fn mask_rows(len: usize, offset: usize) -> Rc<Node>
    returns
        if offset > 0 {
            cat(&zeros_model(Dims::Two(len, offset)), &causal(len), 1)
        } else {
            causal(len)
        },
{
    if offset > 0 {
        cat(&zeros_model(Dims::Two(len, offset)), &causal(len), 1)
    } else {
        causal(len)
    }
}

/// The step of a pass: positions are hidden if there is more than one.
pub open spec fn step_of(batch: usize, len: usize, offset: usize) -> Step {
    Step { batch, len, offset, masked: len > 1 }
}

/// The states of the layers.
pub open spec fn states(layers: Seq<Qwen3_5DecoderLayer>) -> Seq<LayerState> {
    layers.map_values(|l: Qwen3_5DecoderLayer| l@)
}

/// The pass is that of a model with layers in the given states.
pub open spec fn is_pass(pass: ForwardPass, states: Seq<LayerState>, step: Step) -> bool {
    let x = leaf(Slot::Input);
    &&& pass.hidden == embed(&x)
    &&& pass.mask == (if step.masked {
        Some(prepare_causal_attention_mask(step.batch, step.len, step.offset))
    } else {
        None
    })
    &&& pass.layers@.len() == states.len()
    &&& forall|i: int|
        0 <= i < states.len() ==> (#[trigger] pass.layers@[i]).output == states[i].output(x, step)
            && states[i].keeps(pass.layers@[i].kept, x, step)
}

impl Model {
    /// The model needs the weights that the configuration asks for.
    pub open spec fn is(self, cfg: Config) -> bool {
        let t = cfg.text_config;
        &&& self.embed_tokens.path@ == below(model_path(), "embed_tokens"@)
        &&& self.embed_tokens.vocab_size == t.vocab_size
        &&& self.embed_tokens.hidden_size == t.hidden_size
        &&& self.rotary_emb == (Qwen3_5TextRotaryEmbedding {
            dim: cfg.head_width(),
            max_seq_len: t.max_position_embeddings,
            theta: t.rope_parameters.rope_theta,
        })
        &&& self.norm.is(below(model_path(), "norm"@), t.hidden_size, t.rms_norm_eps)
        &&& self.layers@.len() == t.num_hidden_layers
        &&& forall|i: int|
            0 <= i < self.layers@.len() ==> (#[trigger] self.layers@[i]).is(
                cfg,
                i,
                layer_path(i as nat),
            ) && self.layers@[i].rotates_by(self.rotary_emb)
    }

    /// Every layer can make a pass.
    pub open spec fn runnable(self) -> bool {
        forall|i: int|
            0 <= i < self.layers@.len() ==> (#[trigger] self.layers@[i])@.runnable()
    }

    /// Only what was kept differs.
    pub open spec fn same_weights(self, other: Model) -> bool {
        &&& self.embed_tokens == other.embed_tokens
        &&& self.rotary_emb == other.rotary_emb
        &&& self.norm == other.norm
        &&& self.layers@.len() == other.layers@.len()
        &&& forall|i: int|
            0 <= i < self.layers@.len() ==> (#[trigger] self.layers@[i]).same_weights(
                other.layers@[i],
            )
    }

    /// The model of a configuration, with nothing kept.
    pub fn new(cfg: &Config) -> (r: Model)
        requires
            cfg.loads(),
        ensures
            r.is(*cfg),
            forall|i: int|
                0 <= i < r.layers@.len() ==> (#[trigger] r.layers@[i])@ == r.layers@[i]@.cleared(),
    {
        let path = child("model", "language_model");
        let layers_path = child(path.as_str(), "layers");
        let rotary_emb = Qwen3_5TextRotaryEmbedding::new(cfg);
        let mut layers: Vec<Qwen3_5DecoderLayer> = Vec::new();
        let mut layer_idx: usize = 0;
        while layer_idx < cfg.text_config.num_hidden_layers
            invariant
                0 <= layer_idx <= cfg.text_config.num_hidden_layers,
                cfg.loads(),
                layers_path@ == below(model_path(), "layers"@),
                layers@.len() == layer_idx,
                forall|i: int|
                    0 <= i < layer_idx ==> (#[trigger] layers@[i]).is(
                        *cfg,
                        i,
                        layer_path(i as nat),
                    ) && layers@[i].rotates_by(rotary_emb) && layers@[i]@
                        == layers@[i]@.cleared(),
            decreases cfg.text_config.num_hidden_layers - layer_idx,
        {
            let number = text::decimal_text(layer_idx as u64);
            let layer_path = child(layers_path.as_str(), number.as_str());
            assert(cfg.layer_loads(layer_idx as int));
            layers.push(
                Qwen3_5DecoderLayer::new(cfg, layer_idx, rotary_emb, layer_path.as_str()),
            );
            layer_idx = layer_idx + 1;
        }
        Model {
            embed_tokens: EmbeddingWeights {
                path: child(path.as_str(), "embed_tokens"),
                vocab_size: cfg.text_config.vocab_size,
                hidden_size: cfg.text_config.hidden_size,
            },
            rotary_emb,
            layers,
            norm: Qwen3_5RmsNorm::new(
                cfg.text_config.hidden_size,
                cfg.text_config.rms_norm_eps,
                child(path.as_str(), "norm"),
            ),
        }
    }

    /// One pass over `seq_len` positions of `batch` sequences, `offset` positions after the first:
    /// the normalised output of the last layer. Each layer goes on from what it kept.
    pub fn forward(&mut self, batch: usize, seq_len: usize, offset: usize) -> (r: ForwardPass)
        requires
            old(self).runnable(),
            seq_len > 1 ==> seq_len + offset <= usize::MAX,
        ensures
            is_pass(r, states(old(self).layers@), step_of(batch, seq_len, offset)),
            r.last == normed(Slot::FinalNorm, old(self).norm.eps, &leaf(Slot::Input)),
            states(final(self).layers@) == states(old(self).layers@).map_values(
                |s: LayerState| s.after_pass(),
            ),
            final(self).same_weights(*old(self)),
    {
        let step = Step { batch, len: seq_len, offset, masked: seq_len > 1 };
        let x = leaf(Slot::Input);
        let hidden = embed(&x);
        let mask = if seq_len <= 1 {
            None
        } else {
            Some(prepare_causal_attention_mask(batch, seq_len, offset))
        };
        let ghost before = self.layers@;
        let mut layers: Vec<LayerPass> = Vec::new();
        let mut i: usize = 0;
        while i < self.layers.len()
            invariant
                0 <= i <= self.layers@.len(),
                before == old(self).layers@,
                self.layers@.len() == before.len(),
                self.embed_tokens == old(self).embed_tokens,
                self.rotary_emb == old(self).rotary_emb,
                self.norm == old(self).norm,
                old(self).runnable(),
                x == leaf(Slot::Input),
                step == step_of(batch, seq_len, offset),
                layers@.len() == i,
                forall|j: int| i <= j < before.len() ==> self.layers@[j] == before[j],
                forall|j: int|
                    0 <= j < i ==> (#[trigger] self.layers@[j])@ == before[j]@.after_pass()
                        && self.layers@[j].same_weights(
                        before[j],
                    ),
                forall|j: int|
                    0 <= j < i ==> (#[trigger] layers@[j]).output == before[j]@.output(x, step)
                        && before[j]@.keeps(layers@[j].kept, x, step),
            decreases self.layers@.len() - i,
        {
            assert(before[i as int]@.runnable());
            let layer = &mut self.layers[i];
            let pass = layer.forward(&x, step);
            layers.push(pass);
            i = i + 1;
        }
        assert(states(self.layers@) =~= states(before).map_values(|s: LayerState| s.after_pass()));
        let last = self.norm.forward(Slot::FinalNorm, &x);
        ForwardPass { hidden, mask, layers, last }
    }

    /// Makes every layer forget what it kept.
    pub fn clear_kv_cache(&mut self)
        ensures
            states(final(self).layers@) == states(old(self).layers@).map_values(
                |s: LayerState| s.cleared(),
            ),
            final(self).same_weights(*old(self)),
    {
        let ghost before = self.layers@;
        let mut i: usize = 0;
        while i < self.layers.len()
            invariant
                0 <= i <= self.layers@.len(),
                before == old(self).layers@,
                self.layers@.len() == before.len(),
                self.embed_tokens == old(self).embed_tokens,
                self.rotary_emb == old(self).rotary_emb,
                self.norm == old(self).norm,
                forall|j: int| i <= j < before.len() ==> self.layers@[j] == before[j],
                forall|j: int|
                    0 <= j < i ==> (#[trigger] self.layers@[j])@ == before[j]@.cleared()
                        && self.layers@[j].same_weights(
                        before[j],
                    ),
            decreases self.layers@.len() - i,
        {
            let layer = &mut self.layers[i];
            layer.clear_kv_cache();
            i = i + 1;
        }
        assert(states(self.layers@) =~= states(before).map_values(|s: LayerState| s.cleared()));
    }

    /// Whether every layer can make a pass.
    pub fn is_runnable(&self) -> (r: bool)
        requires
            forall|i: int|
                0 <= i < self.layers@.len() ==> (match (#[trigger] self.layers@[i]).token_mixer {
                    TokenMixer::FullAttention(w) => w.dims.fits(),
                    TokenMixer::LinearAttention(w) => w.dims.well_formed(),
                }),
        ensures
            r == self.runnable(),
    {
        let mut i: usize = 0;
        while i < self.layers.len()
            invariant
                0 <= i <= self.layers@.len(),
                forall|j: int|
                    0 <= j < self.layers@.len() ==> (match (
                    #[trigger] self.layers@[j]).token_mixer {
                        TokenMixer::FullAttention(w) => w.dims.fits(),
                        TokenMixer::LinearAttention(w) => w.dims.well_formed(),
                    }),
                forall|j: int|
                    0 <= j < i ==> (#[trigger] self.layers@[j])@.runnable(),
            decreases self.layers@.len() - i,
        {
            let ghost mixer = self.layers@[i as int].token_mixer;
            if let TokenMixer::LinearAttention(w) = &self.layers[i].token_mixer {
                if w.dims.num_k_heads == 0 || w.dims.conv_kernel_size == 0 {
                    assert(!self.layers@[i as int]@.runnable());
                    return false;
                }
            }
            assert(mixer@.runnable());
            assert(self.layers@[i as int]@.runnable());
            i = i + 1;
        }
        true
    }
}

/// The model with its head. Without weights of its own the head is the embedding.
#[derive(Debug)]
pub struct ModelForCausalLM {
    pub base_model: Model,
    pub lm_head: Option<LinearWeights>,
}

/// The scores of the last of `len` positions, from the output of the last layer.
#[verifier::allow_in_spec]
pub fn last_scores(len: usize, eps: u64) -> Rc<Node>
    requires
        len >= 1,
    returns
        linear(
            Projection::Head,
            &narrow(
                &normed(Slot::FinalNorm, eps, &leaf(Slot::Input)),
                1,
                (len - 1) as usize,
                1,
            ),
        ),
{
    linear(
        Projection::Head,
        &narrow(&normed(Slot::FinalNorm, eps, &leaf(Slot::Input)), 1, len - 1, 1),
    )
}

impl ModelForCausalLM {
    /// The model of a configuration, with nothing kept; `has_head` tells whether there are weights
    /// for a head.
    pub fn new(cfg: &Config, has_head: bool) -> (r: ModelForCausalLM)
        requires
            cfg.loads(),
        ensures
            r.base_model.is(*cfg),
            forall|i: int|
                0 <= i < r.base_model.layers@.len() ==> (#[trigger] r.base_model.layers@[i])@
                    == r.base_model.layers@[i]@.cleared(),
            match r.lm_head {
                Some(head) => has_head && head.is(
                    "lm_head"@,
                    cfg.text_config.hidden_size as int,
                    cfg.text_config.vocab_size as int,
                    false,
                ),
                None => !has_head,
            },
    {
        let base_model = Model::new(cfg);
        let lm_head = if has_head {
            Some(
                linear_no_bias(
                    cfg.text_config.hidden_size,
                    cfg.text_config.vocab_size,
                    "lm_head".to_owned(),
                ),
            )
        } else {
            None
        };
        ModelForCausalLM { base_model, lm_head }
    }

    /// One pass: the scores of the last position.
    pub fn forward(&mut self, batch: usize, seq_len: usize, offset: usize) -> (r: ForwardPass)
        requires
            old(self).base_model.runnable(),
            seq_len >= 1,
            seq_len > 1 ==> seq_len + offset <= usize::MAX,
        ensures
            is_pass(r, states(old(self).base_model.layers@), step_of(batch, seq_len, offset)),
            r.last == last_scores(seq_len, old(self).base_model.norm.eps),
            states(final(self).base_model.layers@) == states(
                old(self).base_model.layers@,
            ).map_values(|s: LayerState| s.after_pass()),
            final(self).base_model.same_weights(old(self).base_model),
            final(self).lm_head == old(self).lm_head,
    {
        let pass = self.base_model.forward(batch, seq_len, offset);
        let last = linear(Projection::Head, &narrow(&pass.last, 1, seq_len - 1, 1));
        ForwardPass { hidden: pass.hidden, mask: pass.mask, layers: pass.layers, last }
    }

    /// Makes every layer forget what it kept.
    pub fn clear_kv_cache(&mut self)
        ensures
            states(final(self).base_model.layers@) == states(
                old(self).base_model.layers@,
            ).map_values(|s: LayerState| s.cleared()),
            final(self).base_model.same_weights(old(self).base_model),
            final(self).lm_head == old(self).lm_head,
    {
        self.base_model.clear_kv_cache();
    }
}

}
