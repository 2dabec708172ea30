//! What holds of every pass through the dense model.
use crate::attention;
use crate::attention::{for_each_query_head, gated, scores};
use crate::delta;
use crate::delta_net;
use crate::graph;
use crate::graph::{Dims, Node, Pairwise, Projection, SameShape, Slot};
use crate::ops::{apply, leaf, linear, narrow, pair, reshape, transpose};
use crate::pass::{Kept, Step};
use crate::quantized_qwen3_5;
use crate::qwen3_5;
use crate::qwen3_5::{
    behind, context_of, feed_forward, hiding_later, in_heads, mask_rows, normed,
    prepare_causal_attention_mask, rotated, with_feed_forward, AttentionDims, AttentionState,
    Config, LayerState, LinearWeights, MixerState, Qwen3_5DecoderLayer, Qwen3_5TextRotaryEmbedding, TokenMixer,
};
use crate::rotary;
use crate::shapes;
use crate::state_space;
use std::rc::Rc;
use vstd::prelude::*;

verus! {

broadcast use {graph::group_shape, graph::group_closed};

impl AttentionDims {
    /// The widths of the layer belong together.
    pub open spec fn consistent(self) -> bool {
        self.num_kv_heads * self.num_kv_groups == self.num_heads && self.head_dim % 2 == 0
    }
}

impl AttentionState {
    /// The tensors behind a formula have the shapes that the layer expects: `past` positions are
    /// cached, and the rotary tables reach beyond the positions of the step. The mask covers the
    /// positions before the step too.
    pub open spec fn described_by(
        self,
        env: graph::Shapes,
        step: Step,
        hidden: nat,
        past: nat,
        rows: nat,
    ) -> bool {
        let d = self.dims.head_dim as nat;
        let kv = (self.dims.num_kv_heads * self.dims.head_dim) as nat;
        let width = (self.dims.num_heads * self.dims.head_dim) as nat;
        let cache = seq![step.batch as nat, self.dims.num_kv_heads as nat, past, d];
        &&& (env.linear)(Projection::Query) == Some((hidden, (width * 2) as nat))
        &&& (env.linear)(Projection::Key) == Some((hidden, kv))
        &&& (env.linear)(Projection::Value) == Some((hidden, kv))
        &&& (env.linear)(Projection::Output) == Some((width, hidden))
        &&& (env.leaf)(Slot::QueryNorm) == Some(seq![d])
        &&& (env.leaf)(Slot::KeyNorm) == Some(seq![d])
        &&& (env.leaf)(Slot::Cos) == Some(rotary::table_shape(rows, d))
        &&& (env.leaf)(Slot::Sin) == Some(rotary::table_shape(rows, d))
        &&& step.offset + step.len <= rows
        &&& if self.cached {
            (env.leaf)(Slot::CachedKeys) == Some(cache) && (env.leaf)(Slot::CachedValues) == Some(
                cache,
            )
        } else {
            past == 0
        }
        &&& step.masked ==> (env.leaf)(Slot::Mask) == Some(
            seq![step.batch as nat, 1, step.len as nat, past + step.len as nat],
        )
    }
}

proof fn lemma_rotated(x: Rc<Node>, env: graph::Shapes, step: Step, h: nat, d: nat, rows: nat)
    requires
        graph::shape(&x, env) == Some(seq![step.batch as nat, h, step.len as nat, d]),
        d % 2 == 0,
        (env.leaf)(Slot::Cos) == Some(rotary::table_shape(rows, d)),
        (env.leaf)(Slot::Sin) == Some(rotary::table_shape(rows, d)),
        step.offset + step.len <= rows,
    ensures
        graph::shape(&rotated(&x, step), env) == Some(
            seq![step.batch as nat, h, step.len as nat, d],
        ),
{
    let half = ((d + 1) / 2) as nat;
    assert(half == d / 2);
    assert(seq![rows, half].update(0, step.len as nat) =~= seq![step.len as nat, half]);
}

proof fn lemma_in_heads(
    map: Projection,
    x: Rc<Node>,
    env: graph::Shapes,
    step: Step,
    hidden: nat,
    heads: usize,
    width: usize,
)
    requires
        graph::shape(&x, env) == Some(seq![step.batch as nat, step.len as nat, hidden]),
        (env.linear)(map) == Some((hidden, (heads * width) as nat)),
    ensures
        graph::shape(&in_heads(&linear(map, &x), step, heads, width), env) == Some(
            seq![step.batch as nat, step.len as nat, heads as nat, width as nat],
        ),
{
    let (b, s, w) = (step.batch as nat, step.len as nat, (heads * width) as nat);
    assert(seq![b, s, hidden].update(2, w) =~= seq![b, s, w]);
    shapes::lemma_split_last(step.batch, step.len, w, heads, width);
}

proof fn lemma_behind(
    x: Rc<Node>,
    cache: Slot,
    cached: bool,
    env: graph::Shapes,
    b: nat,
    h: nat,
    past: nat,
    s: nat,
    d: nat,
)
    requires
        cache != Slot::Carry,
        graph::shape(&x, env) == Some(seq![b, h, s, d]),
        if cached {
            (env.leaf)(cache) == Some(seq![b, h, past, d])
        } else {
            past == 0
        },
    ensures
        graph::shape(&behind(&x, cache, cached), env) == Some(seq![b, h, past + s, d]),
{
    if cached {
        assert(seq![b, h, s, d].update(2, past) =~= seq![b, h, past, d]);
        assert(seq![b, h, past, d].update(2, past + s) =~= seq![b, h, past + s, d]);
    }
}

proof fn lemma_turned(x: Rc<Node>, env: graph::Shapes, a: nat, b: nat, c: nat, d: nat)
    requires
        graph::shape(&x, env) == Some(seq![a, b, c, d]),
    ensures
        graph::shape(&transpose(&x, 1, 2), env) == Some(seq![a, c, b, d]),
{
    assert(graph::transposed(Some(seq![a, b, c, d]), 1, 2)->0 =~= seq![a, c, b, d]);
}

proof fn lemma_context(
    query: Rc<Node>,
    keys: Rc<Node>,
    values: Rc<Node>,
    dims: AttentionDims,
    step: Step,
    env: graph::Shapes,
    total: nat,
)
    requires
        graph::shape(&query, env) == Some(
            seq![
                step.batch as nat,
                dims.num_heads as nat,
                step.len as nat,
                dims.head_dim as nat,
            ],
        ),
        graph::shape(&keys, env) == Some(
            seq![step.batch as nat, dims.num_heads as nat, total, dims.head_dim as nat],
        ),
        graph::shape(&values, env) == Some(
            seq![step.batch as nat, dims.num_heads as nat, total, dims.head_dim as nat],
        ),
        step.masked ==> (env.leaf)(Slot::Mask) == Some(
            seq![step.batch as nat, 1, step.len as nat, total],
        ),
    ensures
        graph::shape(&context_of(&query, &keys, &values, dims, step), env) == Some(
            seq![
                step.batch as nat,
                step.len as nat,
                dims.num_heads as nat,
                dims.head_dim as nat,
            ],
        ),
{
    let (b, h, s) = (step.batch as nat, dims.num_heads as nat, step.len as nat);
    let (d, t) = (dims.head_dim as nat, total);
    assert(graph::transposed(Some(seq![b, h, t, d]), 2, 3)->0 =~= seq![b, h, d, t]);
    shapes::lemma_product4(b, h, s, d, t);
    let raw = scores(&query, &keys, dims.head_dim);
    assert(graph::shape(&raw, env) == Some(seq![b, h, s, t]));
    let sums = hiding_later(&raw, step.masked);
    assert(graph::shape(&sums, env) == Some(seq![b, h, s, t])) by {
        shapes::lemma_broadcast4(seq![b, h, s, t], seq![b, 1, s, t]);
    }
    shapes::lemma_product4(b, h, s, t, d);
    let attended = pair(Pairwise::MatMul, &apply(SameShape::Softmax, &sums), &values);
    assert(graph::shape(&attended, env) == Some(seq![b, h, s, d]));
    lemma_turned(attended, env, b, h, s, d);
    let turned = transpose(&attended, 1, 2);
    shapes::lemma_elements(b, s, h, d, 0);
    assert(graph::shape(&in_heads(&turned, step, dims.num_heads, dims.head_dim), env) == Some(
        seq![b, s, h, d],
    ));
}

proof fn lemma_query(
    w: AttentionState,
    x: Rc<Node>,
    step: Step,
    env: graph::Shapes,
    hidden: nat,
)
    requires
        w.dims.fits(),
        graph::shape(&x, env) == Some(seq![step.batch as nat, step.len as nat, hidden]),
        (env.linear)(Projection::Query) == Some(
            (hidden, (w.dims.num_heads * w.dims.head_dim * 2) as nat),
        ),
        (env.leaf)(Slot::QueryNorm) == Some(seq![w.dims.head_dim as nat]),
    ensures
        graph::shape(&w.query(x, step), env) == Some(
            seq![
                step.batch as nat,
                w.dims.num_heads as nat,
                step.len as nat,
                w.dims.head_dim as nat,
            ],
        ),
        graph::shape(&w.gate(x, step), env) == Some(
            seq![
                step.batch as nat,
                step.len as nat,
                w.dims.num_heads as nat,
                w.dims.head_dim as nat,
            ],
        ),
{
    let (b, s, h) = (step.batch as nat, step.len as nat, w.dims.num_heads as nat);
    let d = w.dims.head_dim as nat;
    let dd = (w.dims.head_dim * 2) as usize;
    assert(w.dims.num_heads * w.dims.head_dim * 2 == w.dims.num_heads * dd) by (nonlinear_arith)
        requires
            dd == w.dims.head_dim * 2,
    ;
    lemma_in_heads(Projection::Query, x, env, step, hidden, w.dims.num_heads, dd);
    let both = w.query_and_gate(x, step);
    let full = seq![b, s, h, d];
    assert(seq![b, s, h, dd as nat].update(3, d) =~= full);
    let states = narrow(&both, 3, 0, w.dims.head_dim);
    assert(graph::shape(&states, env) == Some(full));
    qwen3_5::norm_keeps_the_shape(Slot::QueryNorm, w.query_eps, states, env, full);
    lemma_turned(normed(Slot::QueryNorm, w.query_eps, &states), env, b, s, h, d);
}

proof fn lemma_key_and_value(
    w: AttentionState,
    x: Rc<Node>,
    step: Step,
    env: graph::Shapes,
    hidden: nat,
)
    requires
        graph::shape(&x, env) == Some(seq![step.batch as nat, step.len as nat, hidden]),
        (env.linear)(Projection::Key) == Some(
            (hidden, (w.dims.num_kv_heads * w.dims.head_dim) as nat),
        ),
        (env.linear)(Projection::Value) == Some(
            (hidden, (w.dims.num_kv_heads * w.dims.head_dim) as nat),
        ),
        (env.leaf)(Slot::KeyNorm) == Some(seq![w.dims.head_dim as nat]),
    ensures
        ({
            let d = seq![
                step.batch as nat,
                w.dims.num_kv_heads as nat,
                step.len as nat,
                w.dims.head_dim as nat,
            ];
            &&& graph::shape(&w.key(x, step), env) == Some(d)
            &&& graph::shape(&w.value(x, step), env) == Some(d)
        }),
{
    let (b, s, h) = (step.batch as nat, step.len as nat, w.dims.num_kv_heads as nat);
    let d = w.dims.head_dim as nat;
    lemma_in_heads(Projection::Key, x, env, step, hidden, w.dims.num_kv_heads, w.dims.head_dim);
    lemma_in_heads(Projection::Value, x, env, step, hidden, w.dims.num_kv_heads, w.dims.head_dim);
    let key = in_heads(&linear(Projection::Key, &x), step, w.dims.num_kv_heads, w.dims.head_dim);
    let value = in_heads(
        &linear(Projection::Value, &x),
        step,
        w.dims.num_kv_heads,
        w.dims.head_dim,
    );
    qwen3_5::norm_keeps_the_shape(Slot::KeyNorm, w.key_eps, key, env, seq![b, s, h, d]);
    lemma_turned(normed(Slot::KeyNorm, w.key_eps, &key), env, b, s, h, d);
    lemma_turned(value, env, b, s, h, d);
}

/// A step of an attention layer of consistent widths has the shape of its input, and leaves
/// `step.len` positions more in the cache than it found there.
pub proof fn attention_fits(
    w: AttentionState,
    x: Rc<Node>,
    step: Step,
    env: graph::Shapes,
    hidden: nat,
    past: nat,
    rows: nat,
)
    requires
        w.dims.fits(),
        w.dims.consistent(),
        w.described_by(env, step, hidden, past, rows),
        graph::shape(&x, env) == Some(seq![step.batch as nat, step.len as nat, hidden]),
    ensures
        graph::shape(&w.output(x, step), env) == Some(
            seq![step.batch as nat, step.len as nat, hidden],
        ),
        ({
            let cache = seq![
                step.batch as nat,
                w.dims.num_kv_heads as nat,
                past + step.len as nat,
                w.dims.head_dim as nat,
            ];
            &&& graph::shape(&w.all_keys(x, step), env) == Some(cache)
            &&& graph::shape(&w.all_values(x, step), env) == Some(cache)
        }),
{
    let (b, s, d) = (step.batch as nat, step.len as nat, w.dims.head_dim as nat);
    let (h, kv) = (w.dims.num_heads as nat, w.dims.num_kv_heads as nat);
    let total = past + s;
    lemma_query(w, x, step, env, hidden);
    lemma_key_and_value(w, x, step, env, hidden);
    let (query, key, value) = (w.query(x, step), w.key(x, step), w.value(x, step));
    lemma_rotated(query, env, step, h, d, rows);
    lemma_rotated(key, env, step, kv, d, rows);
    lemma_behind(rotated(&key, step), Slot::CachedKeys, w.cached, env, b, kv, past, s, d);
    lemma_behind(value, Slot::CachedValues, w.cached, env, b, kv, past, s, d);
    let keys = w.all_keys(x, step);
    let values = w.all_values(x, step);
    attention::lemma_for_each_query_head(keys, env, w.dims.num_kv_groups, b, kv, h, total, d);
    attention::lemma_for_each_query_head(values, env, w.dims.num_kv_groups, b, kv, h, total, d);
    lemma_context(
        rotated(&query, step),
        for_each_query_head(&keys, w.dims.num_kv_groups),
        for_each_query_head(&values, w.dims.num_kv_groups),
        w.dims,
        step,
        env,
        total,
    );
    lemma_joined(w.context(x, step), w.gate(x, step), w.dims, step, env, hidden);
}

/// Gating, and the heads joined.
proof fn lemma_joined(
    context: Rc<Node>,
    gate: Rc<Node>,
    dims: AttentionDims,
    step: Step,
    env: graph::Shapes,
    hidden: nat,
)
    requires
        dims.fits(),
        (env.linear)(Projection::Output) == Some(
            ((dims.num_heads * dims.head_dim) as nat, hidden),
        ),
        graph::shape(&context, env) == Some(
            seq![
                step.batch as nat,
                step.len as nat,
                dims.num_heads as nat,
                dims.head_dim as nat,
            ],
        ),
        graph::shape(&gate, env) == graph::shape(&context, env),
    ensures
        graph::shape(
            &linear(
                Projection::Output,
                &reshape(
                    &gated(&context, &gate),
                    Dims::Three(
                        step.batch,
                        step.len,
                        (dims.num_heads * dims.head_dim) as usize,
                    ),
                ),
            ),
            env,
        ) == Some(seq![step.batch as nat, step.len as nat, hidden]),
{
    let (b, s) = (step.batch as nat, step.len as nat);
    let full = seq![b, s, dims.num_heads as nat, dims.head_dim as nat];
    let width = (dims.num_heads * dims.head_dim) as usize;
    shapes::lemma_broadcast4(full, full);
    assert(graph::shape(&gated(&context, &gate), env) == Some(full));
    shapes::lemma_join_last(
        step.batch,
        step.len,
        dims.num_heads as nat,
        dims.head_dim as nat,
        width,
    );
    assert(seq![b, s, width as nat].update(2, hidden) =~= seq![b, s, hidden]);
}

impl LayerState {
    /// The tensors behind a layer have the shapes that it expects, `past` positions being cached.
    pub open spec fn described_by(
        self,
        env: graph::Shapes,
        step: Step,
        hidden: nat,
        inner: nat,
        past: nat,
        rows: nat,
    ) -> bool {
        &&& (env.leaf)(Slot::MixerNorm) == Some(seq![hidden])
        &&& (env.leaf)(Slot::MlpNorm) == Some(seq![hidden])
        &&& (env.linear)(Projection::Gate) == Some((hidden, inner))
        &&& (env.linear)(Projection::Up) == Some((hidden, inner))
        &&& (env.linear)(Projection::Down) == Some((inner, hidden))
        &&& match self.mixer {
            MixerState::FullAttention(w) => w.dims.consistent() && w.described_by(
                env,
                step,
                hidden,
                past,
                rows,
            ),
            MixerState::LinearAttention { dims, primed } => dims.consistent()
                && dims.described_by(env, step, hidden, primed),
        }
    }
}

proof fn lemma_feed_forward(
    x: Rc<Node>,
    env: graph::Shapes,
    d: Seq<nat>,
    hidden: nat,
    inner: nat,
)
    requires
        d.len() > 0,
        d.last() == hidden,
        graph::shape(&x, env) == Some(d),
        (env.linear)(Projection::Gate) == Some((hidden, inner)),
        (env.linear)(Projection::Up) == Some((hidden, inner)),
        (env.linear)(Projection::Down) == Some((inner, hidden)),
    ensures
        graph::shape(&feed_forward(&x), env) == Some(d),
{
    let n = d.len() as int;
    let wide = d.update(n - 1, inner);
    assert(graph::shape(&linear(Projection::Gate, &x), env) == Some(wide));
    assert(graph::shape(&linear(Projection::Up, &x), env) == Some(wide));
    assert(wide.update(n - 1, hidden) =~= d);
}

proof fn lemma_with_feed_forward(
    x: Rc<Node>,
    mixed: Rc<Node>,
    eps: u64,
    env: graph::Shapes,
    d: Seq<nat>,
    hidden: nat,
    inner: nat,
)
    requires
        d.len() > 0,
        d.last() == hidden,
        graph::shape(&x, env) == Some(d),
        graph::shape(&mixed, env) == Some(d),
        (env.leaf)(Slot::MlpNorm) == Some(seq![hidden]),
        (env.linear)(Projection::Gate) == Some((hidden, inner)),
        (env.linear)(Projection::Up) == Some((hidden, inner)),
        (env.linear)(Projection::Down) == Some((inner, hidden)),
    ensures
        graph::shape(&with_feed_forward(&x, &mixed, eps), env) == Some(d),
{
    let sum = pair(Pairwise::Add, &x, &mixed);
    assert(graph::shape(&sum, env) == Some(d));
    qwen3_5::norm_keeps_the_shape(Slot::MlpNorm, eps, sum, env, d);
    lemma_feed_forward(normed(Slot::MlpNorm, eps, &sum), env, d, hidden, inner);
}

/// What was kept has the shapes in which the layer keeps it.
pub open spec fn kept_fits(
    w: LayerState,
    kept: Kept,
    env: graph::Shapes,
    step: Step,
    total: nat,
) -> bool {
    match (w.mixer, kept) {
        (MixerState::FullAttention(w), Kept::Attention { keys, values }) => {
            let cache = seq![
                step.batch as nat,
                w.dims.num_kv_heads as nat,
                total,
                w.dims.head_dim as nat,
            ];
            graph::shape(&keys, env) == Some(cache) && graph::shape(&values, env) == Some(cache)
        },
        (
            MixerState::LinearAttention { dims, .. },
            Kept::StateSpace { conv_state, recurrent_state },
        ) => {
            graph::shape(&conv_state, env) == Some(
                state_space::conv_state_shape(step.batch, dims.conv_dim, dims.conv_kernel_size),
            ) && graph::shape(&recurrent_state, env) == Some(
                delta::state_shape(dims.delta_dims(step)),
            )
        },
        _ => false,
    }
}

/// The recurrent layer of a state, in the shapes that it expects when it does not continue.
proof fn lemma_mixed(
    w: LayerState,
    step: Step,
    env: graph::Shapes,
    hidden: nat,
    inner: nat,
    past: nat,
    rows: nat,
)
    requires
        w.runnable(),
        step.len >= 1,
        step.batch >= 1,
        w.described_by(env, step, hidden, inner, past, rows),
        (env.leaf)(Slot::Input) == Some(seq![step.batch as nat, step.len as nat, hidden]),
    ensures
        graph::shape(&w.mixed(leaf(Slot::Input), step), env) == Some(
            seq![step.batch as nat, step.len as nat, hidden],
        ),
        forall|kept: Kept| #[trigger]
            w.keeps(kept, leaf(Slot::Input), step) ==> kept_fits(
                w,
                kept,
                env,
                step,
                past + step.len as nat,
            ),
{
    let x = leaf(Slot::Input);
    let d = seq![step.batch as nat, step.len as nat, hidden];
    assert(graph::shape(&x, env) == Some(d));
    qwen3_5::norm_keeps_the_shape(Slot::MixerNorm, w.input_eps, x, env, d);
    let h = w.normed_input(x);
    match w.mixer {
        MixerState::FullAttention(a) => {
            attention_fits(a, h, step, env, hidden, past, rows);
        },
        MixerState::LinearAttention { dims, primed } => {
            delta_net::delta_net_fits(dims, h, step, primed && step.len == 1, env, hidden);
        },
    }
}

/// A pass through a layer keeps the shape of its input.
pub proof fn layer_fits(
    w: LayerState,
    step: Step,
    env: graph::Shapes,
    hidden: nat,
    inner: nat,
    past: nat,
    rows: nat,
)
    requires
        w.runnable(),
        step.len >= 1,
        step.batch >= 1,
        w.described_by(env, step, hidden, inner, past, rows),
        (env.leaf)(Slot::Input) == Some(seq![step.batch as nat, step.len as nat, hidden]),
    ensures
        graph::shape(&w.output(leaf(Slot::Input), step), env) == Some(
            seq![step.batch as nat, step.len as nat, hidden],
        ),
{
    let x = leaf(Slot::Input);
    let d = seq![step.batch as nat, step.len as nat, hidden];
    lemma_mixed(w, step, env, hidden, inner, past, rows);
    lemma_with_feed_forward(x, w.mixed(x, step), w.post_eps, env, d, hidden, inner);
}

proof fn lemma_follow(
    w: LayerState,
    step: Step,
    kept: Kept,
    env: graph::Shapes,
    next: Step,
    after: graph::Shapes,
    hidden: nat,
    inner: nat,
    past: nat,
    rows: nat,
)
    requires
        w.described_by(env, step, hidden, inner, past, rows),
        kept_fits(w, kept, env, step, past + step.len as nat),
        quantized_qwen3_5::after_keeping(env, after, kept),
        after.conv == env.conv,
        next.batch == step.batch,
        next.offset + next.len <= rows,
        next.masked ==> (after.leaf)(Slot::Mask) == Some(
            seq![
                next.batch as nat,
                1,
                next.len as nat,
                past + step.len as nat + next.len as nat,
            ],
        ),
    ensures
        w.after_pass().described_by(
            after,
            next,
            hidden,
            inner,
            past + step.len as nat,
            rows,
        ),
{
}

/// What a pass leaves behind suits the next pass: a layer expects exactly the shapes that it kept,
/// with the positions of the pass among the cached ones. A mask of the next pass has to cover
/// those too.
pub proof fn passes_follow_one_another(
    w: LayerState,
    step: Step,
    kept: Kept,
    env: graph::Shapes,
    next: Step,
    after: graph::Shapes,
    hidden: nat,
    inner: nat,
    past: nat,
    rows: nat,
)
    requires
        w.runnable(),
        step.len >= 1,
        step.batch >= 1,
        w.described_by(env, step, hidden, inner, past, rows),
        (env.leaf)(Slot::Input) == Some(seq![step.batch as nat, step.len as nat, hidden]),
        w.keeps(kept, leaf(Slot::Input), step),
        quantized_qwen3_5::after_keeping(env, after, kept),
        after.conv == env.conv,
        next.batch == step.batch,
        next.offset + next.len <= rows,
        next.masked ==> (after.leaf)(Slot::Mask) == Some(
            seq![
                next.batch as nat,
                1,
                next.len as nat,
                past + step.len as nat + next.len as nat,
            ],
        ),
    ensures
        w.after_pass().described_by(
            after,
            next,
            hidden,
            inner,
            past + step.len as nat,
            rows,
        ),
{
    lemma_mixed(w, step, env, hidden, inner, past, rows);
    lemma_follow(w, step, kept, env, next, after, hidden, inner, past, rows);
}

/// The mask of a pass covers the positions of the pass and the `offset` positions before it.
pub proof fn mask_fits(batch: usize, len: usize, offset: usize, env: graph::Shapes)
    requires
        len + offset <= usize::MAX,
    ensures
        graph::shape(&prepare_causal_attention_mask(batch, len, offset), env) == Some(
            seq![batch as nat, 1, len as nat, (len + offset) as nat],
        ),
{
    let (n, o) = (len as nat, offset as nat);
    let wide = seq![n, o + n];
    let rows = mask_rows(len, offset);
    assert(graph::shape(&rows, env) == Some(wide)) by {
        assert(seq![n, n].update(1, o) =~= seq![n, o]);
        assert(seq![n, o].update(1, o + n) =~= wide);
        if offset == 0 {
            assert(seq![n, n] =~= wide);
        }
    }
    let to = seq![batch as nat, 1, n, (len + offset) as nat];
    assert(graph::expands_to(wide, to));
}

/// The scores of a pass: one row of the vocabulary for the last position of each sequence.
pub proof fn scores_fit(
    step: Step,
    eps: u64,
    env: graph::Shapes,
    hidden: nat,
    vocabulary: nat,
)
    requires
        step.len >= 1,
        (env.leaf)(Slot::Input) == Some(seq![step.batch as nat, step.len as nat, hidden]),
        (env.leaf)(Slot::FinalNorm) == Some(seq![hidden]),
        (env.linear)(Projection::Head) == Some((hidden, vocabulary)),
    ensures
        graph::shape(&qwen3_5::last_scores(step.len, eps), env) == Some(
            seq![step.batch as nat, 1, vocabulary],
        ),
{
    let (b, s) = (step.batch as nat, step.len as nat);
    let d = seq![b, s, hidden];
    let x = leaf(Slot::Input);
    assert(graph::shape(&x, env) == Some(d));
    qwen3_5::norm_keeps_the_shape(Slot::FinalNorm, eps, x, env, d);
    let out = normed(Slot::FinalNorm, eps, &x);
    assert(d.update(1, 1) =~= seq![b, 1, hidden]);
    let last = narrow(&out, 1, (step.len - 1) as usize, 1);
    assert(graph::shape(&last, env) == Some(seq![b, 1, hidden]));
    assert(seq![b, 1, hidden].update(2, vocabulary) =~= seq![b, 1, vocabulary]);
}

/// A model that has just been built has nothing to forget, and a model forgets everything that it
/// learned in a pass.
pub proof fn clearing_undoes_passes(w: LayerState)
    ensures
        w.after_pass().cleared() == w.cleared(),
        w.cleared().cleared() == w.cleared(),
        w.after_pass().runnable() == w.runnable(),
        w.cleared().runnable() == w.runnable(),
{
}

/// Heads that share evenly make for layers of consistent widths.
pub proof fn even_configurations_are_consistent(cfg: Config)
    requires
        cfg.loads(),
        cfg.text_config.num_key_value_heads != 0,
        cfg.text_config.num_attention_heads % cfg.text_config.num_key_value_heads == 0,
        cfg.head_width() % 2 == 0,
        cfg.text_config.linear_num_key_heads != 0,
        cfg.text_config.linear_num_value_heads % cfg.text_config.linear_num_key_heads == 0,
        cfg.text_config.linear_key_head_dim > 0,
        cfg.text_config.linear_value_head_dim > 0,
    ensures
        cfg.attention_dims().consistent(),
        cfg.delta_net_dims().consistent(),
{
    vstd::arithmetic::div_mod::lemma_fundamental_div_mod(
        cfg.text_config.num_attention_heads as int,
        cfg.text_config.num_key_value_heads as int,
    );
}

/// The widths of a linear map.
pub open spec fn widths(weights: LinearWeights) -> Option<(nat, nat)> {
    Some((weights.in_dim as nat, weights.out_dim as nat))
}

/// The tensors behind the formulas of a layer are the weights that it asks for, and the tables of
/// the rotary embedding.
pub open spec fn has_weights_of(
    env: graph::Shapes,
    layer: Qwen3_5DecoderLayer,
    rotary_emb: Qwen3_5TextRotaryEmbedding,
) -> bool {
    let tables = rotary::table_shape(rotary_emb.max_seq_len as nat, rotary_emb.dim as nat);
    &&& (env.leaf)(Slot::MixerNorm) == Some(seq![layer.input_layernorm.dim as nat])
    &&& (env.leaf)(Slot::MlpNorm) == Some(seq![layer.post_attention_layernorm.dim as nat])
    &&& (env.linear)(Projection::Gate) == widths(layer.mlp.gate_proj)
    &&& (env.linear)(Projection::Up) == widths(layer.mlp.up_proj)
    &&& (env.linear)(Projection::Down) == widths(layer.mlp.down_proj)
    &&& (env.leaf)(Slot::Cos) == Some(tables)
    &&& (env.leaf)(Slot::Sin) == Some(tables)
    &&& match layer.token_mixer {
        TokenMixer::FullAttention(w) => {
            &&& (env.linear)(Projection::Query) == widths(w.q_proj)
            &&& (env.linear)(Projection::Key) == widths(w.k_proj)
            &&& (env.linear)(Projection::Value) == widths(w.v_proj)
            &&& (env.linear)(Projection::Output) == widths(w.o_proj)
            &&& (env.leaf)(Slot::QueryNorm) == Some(seq![w.q_norm.dim as nat])
            &&& (env.leaf)(Slot::KeyNorm) == Some(seq![w.k_norm.dim as nat])
        },
        TokenMixer::LinearAttention(w) => {
            &&& (env.linear)(Projection::MixedQkv) == widths(w.in_proj_qkv)
            &&& (env.linear)(Projection::MixerGate) == widths(w.in_proj_z)
            &&& (env.linear)(Projection::Beta) == widths(w.in_proj_b)
            &&& (env.linear)(Projection::Alpha) == widths(w.in_proj_a)
            &&& (env.linear)(Projection::MixerOutput) == widths(w.out_proj)
            &&& env.conv == (w.dims.conv_dim as nat, w.dims.conv_kernel_size as nat)
            &&& (env.leaf)(Slot::DtBias) == Some(seq![w.dims.num_v_heads as nat])
            &&& (env.leaf)(Slot::NegativeDecay) == Some(seq![w.dims.num_v_heads as nat])
            &&& (env.leaf)(Slot::GatedNorm) == Some(seq![w.dims.head_v_dim as nat])
        },
    }
}

/// A layer as it is built asks for exactly the weights that its formulas expect: with these
/// weights, the first pass through it keeps the shape of its input.
pub proof fn built_layers_fit_their_weights(
    cfg: Config,
    layer: Qwen3_5DecoderLayer,
    index: int,
    path: Seq<char>,
    rotary_emb: Qwen3_5TextRotaryEmbedding,
    step: Step,
    env: graph::Shapes,
)
    requires
        layer.is(cfg, index, path),
        layer@ == layer@.cleared(),
        layer@.runnable(),
        cfg.attention_dims().consistent(),
        cfg.delta_net_dims().consistent(),
        rotary_emb.dim == cfg.head_width(),
        has_weights_of(env, layer, rotary_emb),
        step.len >= 1,
        step.batch >= 1,
        step.offset + step.len <= rotary_emb.max_seq_len,
        step.masked ==> (env.leaf)(Slot::Mask) == Some(
            seq![step.batch as nat, 1, step.len as nat, step.len as nat],
        ),
        (env.leaf)(Slot::Input) == Some(
            seq![step.batch as nat, step.len as nat, cfg.text_config.hidden_size as nat],
        ),
    ensures
        graph::shape(&layer@.output(leaf(Slot::Input), step), env) == Some(
            seq![step.batch as nat, step.len as nat, cfg.text_config.hidden_size as nat],
        ),
{
    let hidden = cfg.text_config.hidden_size as nat;
    let inner = cfg.text_config.intermediate_size as nat;
    let rows = rotary_emb.max_seq_len as nat;
    lemma_described(cfg, layer, index, path, rotary_emb, step, env);
    layer_fits(layer@, step, env, hidden, inner, 0, rows);
}

proof fn lemma_described(
    cfg: Config,
    layer: Qwen3_5DecoderLayer,
    index: int,
    path: Seq<char>,
    rotary_emb: Qwen3_5TextRotaryEmbedding,
    step: Step,
    env: graph::Shapes,
)
    requires
        layer.is(cfg, index, path),
        layer@ == layer@.cleared(),
        cfg.attention_dims().consistent(),
        cfg.delta_net_dims().consistent(),
        rotary_emb.dim == cfg.head_width(),
        has_weights_of(env, layer, rotary_emb),
        step.offset + step.len <= rotary_emb.max_seq_len,
        step.masked ==> (env.leaf)(Slot::Mask) == Some(
            seq![step.batch as nat, 1, step.len as nat, step.len as nat],
        ),
    ensures
        layer@.described_by(
            env,
            step,
            cfg.text_config.hidden_size as nat,
            cfg.text_config.intermediate_size as nat,
            0,
            rotary_emb.max_seq_len as nat,
        ),
{
}

}
