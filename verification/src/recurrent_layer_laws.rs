//! What the recurrent layers compute, element by element: what the convolution reads and keeps,
//! which of its channels are queries, keys and values, what decays, and what the output is made of.
use crate::attention_laws;
use crate::attention_laws::row_of;
use crate::blocks::softplus;
use crate::conv_laws;
use crate::delta::{torch_recurrent_gated_delta_rule, DeltaDims};
use crate::delta_net::{split, DeltaNetDims};
use crate::dense_recurrence_laws;
use crate::graph;
use crate::graph::{FloatSetting, Node, Pairwise, Projection, SameShape, Scalar, Slot};
use crate::layer_laws::{converted, inverse_root_mean_square, lemma_broadcast_row};
use crate::meaning;
use crate::meaning::{clipped, line, value, within, Arithmetic, Tensor, World};
use crate::ops;
use crate::pass::Step;
use crate::recurrence_laws;
use crate::shapes;
use crate::state_space;
use crate::state_space::{last_inputs, padded, StateSpaceWeights};
use std::rc::Rc;
use vstd::prelude::*;

verus! {

/// What the convolution reads of channel `c` at place `p`: behind the kept inputs, or behind as many
/// zeros, stand the projections of the positions of the step.
pub open spec fn channel_at<E>(
    env: World<E>,
    x: Tensor<E>,
    pad: int,
    kept: bool,
    i: int,
    c: int,
    p: int,
) -> E {
    if p >= pad {
        (env.arithmetic.linear)(Projection::MixedQkv, row_of(x, i, p - pad))[c]
    } else if kept {
        ((env.leaf)(Slot::ConvState).at)(seq![i, c, p])
    } else {
        env.arithmetic.zero
    }
}

/// The format of what the convolution reads.
pub open spec fn channel_format<E>(env: World<E>, x: Tensor<E>, kept: bool) -> int {
    if kept {
        (env.leaf)(Slot::ConvState).format
    } else {
        x.format
    }
}

/// The input of the layer and the kept inputs of the convolution have the sizes that belong to the
/// convolution of `channels` channels over `pad + 1` positions.
pub open spec fn channels_fit<E>(
    env: World<E>,
    x: Tensor<E>,
    step: Step,
    channels: usize,
    pad: usize,
    kept: bool,
) -> bool {
    &&& x.shape.len() == 3
    &&& x.shape[0] == step.batch
    &&& x.shape[1] == step.len
    &&& (env.arithmetic.width)(Projection::MixedQkv) == channels
    &&& kept ==> (env.leaf)(Slot::ConvState).shape == seq![
        step.batch as nat,
        channels as nat,
        pad as nat,
    ]
}

/// The channels before the convolution.
#[verifier::inline]
spec fn mixed(x: Rc<Node>) -> Rc<Node> {
    ops::transpose(
        &ops::linear(Projection::MixedQkv, &ops::apply(SameShape::Contiguous, &x)),
        1,
        2,
    )
}

/// The row of a linear map of three dimensions.
proof fn lemma_linear<E>(map: Projection, x: Rc<Node>, env: World<E>, idx: Seq<int>)
    requires
        value(&x, env).shape.len() == 3,
        within(value(&x, env).shape.update(2, (env.arithmetic.width)(map)), idx),
    ensures
        ({
            let r = value(&ops::linear(map, &ops::apply(SameShape::Contiguous, &x)), env);
            &&& r.shape == value(&x, env).shape.update(2, (env.arithmetic.width)(map))
            &&& r.format == value(&x, env).format
            &&& (r.at)(idx) == (env.arithmetic.linear)(
                map,
                row_of(value(&x, env), idx[0], idx[1]),
            )[idx[2]]
        }),
{
    broadcast use meaning::group_value;

    let t = value(&x, env);
    assert(line(t, 2, idx) =~= row_of(t, idx[0], idx[1])) by {
        assert forall|k: int| 0 <= k < t.shape[2] implies #[trigger] idx.update(2, k) == seq![
            idx[0],
            idx[1],
            k,
        ] by {
            assert(idx.update(2, k) =~= seq![idx[0], idx[1], k]);
        }
    }
}

/// What the convolution reads, element by element.
proof fn lemma_channels<E>(
    x: Rc<Node>,
    env: World<E>,
    step: Step,
    channels: usize,
    pad: usize,
    kept: bool,
    idx: Seq<int>,
)
    requires
        channels_fit(env, value(&x, env), step, channels, pad, kept),
        within(seq![step.batch as nat, channels as nat, pad as nat + step.len as nat], idx),
    ensures
        ({
            let r = value(&padded(&mixed(x), kept, step.batch, channels, pad), env);
            (r.at)(idx) == channel_at(
                env,
                value(&x, env),
                pad as int,
                kept,
                idx[0],
                idx[1],
                idx[2],
            )
        }),
{
    broadcast use meaning::group_value;

    let t = value(&x, env);
    let (b, s, c, n) = (step.batch as nat, step.len as nat, channels as nat, pad as nat);
    let full = seq![b, c, n + s];
    assert(0 <= idx[0] < full[0] && 0 <= idx[1] < full[1] && 0 <= idx[2] < full[2]);
    lemma_channels_shape(x, env, step, channels, pad, kept);
    let m = value(&mixed(x), env);
    assert(m.shape =~= seq![b, c, s]);
    if idx[2] >= n {
        let at = idx.update(2, idx[2] - n);
        assert(within(m.shape, at));
        let from = seq![idx[0], idx[2] - n, idx[1]];
        assert(at.update(1, at[2]).update(2, at[1]) =~= from);
        assert(within(t.shape.update(2, c), from));
        lemma_linear(Projection::MixedQkv, x, env, from);
    } else if kept {
        assert(idx =~= seq![idx[0], idx[1], idx[2]]);
    } else {
        assert(within(seq![b, c, n], idx));
    }
}

proof fn lemma_channels_shape<E>(
    x: Rc<Node>,
    env: World<E>,
    step: Step,
    channels: usize,
    pad: usize,
    kept: bool,
)
    requires
        channels_fit(env, value(&x, env), step, channels, pad, kept),
    ensures
        ({
            let r = value(&padded(&mixed(x), kept, step.batch, channels, pad), env);
            &&& r.shape == seq![
                step.batch as nat,
                channels as nat,
                pad as nat + step.len as nat,
            ]
            &&& r.format == channel_format(env, value(&x, env), kept)
        }),
{
    broadcast use meaning::group_value;

    let (b, s, c, n) = (step.batch as nat, step.len as nat, channels as nat, pad as nat);
    assert(value(&mixed(x), env).shape =~= seq![b, c, s]);
    let r = value(&padded(&mixed(x), kept, step.batch, channels, pad), env);
    assert(r.shape =~= seq![b, c, n + s]);
}

/// The convolution reads what it kept, or zeros, and then the positions of the step: in the
/// quantized model as in the dense one.
pub proof fn convolution_reads<E>(
    w: StateSpaceWeights,
    d: DeltaNetDims,
    x: Rc<Node>,
    env: World<E>,
    step: Step,
    kept: bool,
    idx: Seq<int>,
)
    requires
        w.conv_kernel_size >= 1,
        kept == (w.primed && step.len == 1),
        d.conv_dim == w.conv_dim,
        d.conv_kernel_size == w.conv_kernel_size,
        channels_fit(
            env,
            value(&x, env),
            step,
            w.conv_dim,
            (w.conv_kernel_size - 1) as usize,
            kept,
        ),
        within(
            seq![
                step.batch as nat,
                w.conv_dim as nat,
                (w.conv_kernel_size - 1) as nat + step.len as nat,
            ],
            idx,
        ),
    ensures
        ({
            let expected = channel_at(
                env,
                value(&x, env),
                w.conv_kernel_size - 1,
                kept,
                idx[0],
                idx[1],
                idx[2],
            );
            &&& (value(&w.conv_input(x, step), env).at)(idx) == expected
            &&& (value(&d.conv_input(x, step, kept), env).at)(idx) == expected
        }),
{
    let pad = (w.conv_kernel_size - 1) as usize;
    lemma_channels(x, env, step, w.conv_dim, pad, kept, idx);
}

/// The state that the convolution keeps is the last inputs that it read, one fewer than a window
/// has: after the whole step where it began anew, and one further than before where it went on.
pub proof fn convolution_keeps<E>(
    d: DeltaNetDims,
    x: Rc<Node>,
    env: World<E>,
    step: Step,
    kept: bool,
    idx: Seq<int>,
)
    requires
        d.conv_kernel_size >= 1,
        kept ==> step.len == 1,
        channels_fit(
            env,
            value(&x, env),
            step,
            d.conv_dim,
            (d.conv_kernel_size - 1) as usize,
            kept,
        ),
        within(
            seq![step.batch as nat, d.conv_dim as nat, (d.conv_kernel_size - 1) as nat],
            idx,
        ),
    ensures
        ({
            let pad = (d.conv_kernel_size - 1) as usize;
            let expected = channel_at(
                env,
                value(&x, env),
                pad as int,
                kept,
                idx[0],
                idx[1],
                step.len + idx[2],
            );
            let quantized = last_inputs(
                &padded(
                    &ops::transpose(
                        &ops::linear(
                            Projection::MixedQkv,
                            &ops::apply(SameShape::Contiguous, &x),
                        ),
                        1,
                        2,
                    ),
                    kept,
                    step.batch,
                    d.conv_dim,
                    pad,
                ),
                kept,
                step.len,
                pad,
            );
            &&& (value(&d.conv_state(x, step, kept), env).at)(idx) == expected
            &&& (value(&quantized, env).at)(idx) == expected
        }),
{
    broadcast use meaning::group_value;

    let pad = (d.conv_kernel_size - 1) as usize;
    let full = seq![step.batch as nat, d.conv_dim as nat, pad as nat];
    assert(0 <= idx[0] < full[0] && 0 <= idx[1] < full[1] && 0 <= idx[2] < full[2]);
    lemma_channels_shape(x, env, step, d.conv_dim, pad, kept);
    let at = idx.update(2, idx[2] + step.len);
    assert(within(
        seq![step.batch as nat, d.conv_dim as nat, pad as nat + step.len as nat],
        at,
    ));
    lemma_channels(x, env, step, d.conv_dim, pad, kept, at);
    let r = value(&d.conv_state(x, step, kept), env);
    assert(r.shape =~= full);
}

/// What the quantized layer keeps of its convolution is what the dense one would.
pub proof fn quantized_convolution_keeps<E>(
    w: StateSpaceWeights,
    x: Rc<Node>,
    env: World<E>,
    step: Step,
    idx: Seq<int>,
)
    requires
        w.conv_kernel_size >= 1,
        channels_fit(
            env,
            value(&x, env),
            step,
            w.conv_dim,
            (w.conv_kernel_size - 1) as usize,
            w.primed && step.len == 1,
        ),
        within(
            seq![step.batch as nat, w.conv_dim as nat, (w.conv_kernel_size - 1) as nat],
            idx,
        ),
    ensures
        ({
            let pad = (w.conv_kernel_size - 1) as usize;
            let kept = w.primed && step.len == 1;
            let state = last_inputs(&w.conv_input(x, step), w.continues(step), step.len, pad);
            (value(&state, env).at)(idx) == channel_at(
                env,
                value(&x, env),
                pad as int,
                kept,
                idx[0],
                idx[1],
                step.len + idx[2],
            )
        }),
{
    let any: DeltaNetDims = arbitrary();
    let d = DeltaNetDims {
        conv_dim: w.conv_dim,
        conv_kernel_size: w.conv_kernel_size,
        ..any
    };
    convolution_keeps(d, x, env, step, w.primed && step.len == 1, idx);
}

/// The window that the convolution reads for position `t` of a channel.
pub open spec fn window_of<E>(
    env: World<E>,
    x: Tensor<E>,
    kernel: nat,
    kept: bool,
    i: int,
    c: int,
    t: int,
) -> Seq<E> {
    Seq::new(kernel, |k: int| channel_at(env, x, kernel - 1, kept, i, c, t + k))
}

/// Channel `c` of the quantized layer at position `t`: the window of the position, weighted and
/// summed, and activated.
pub open spec fn quantized_channel<E>(
    env: World<E>,
    x: Tensor<E>,
    kernel: nat,
    kept: bool,
    i: int,
    t: int,
    c: int,
) -> E {
    let a = env.arithmetic;
    let w = (env.leaf)(Slot::ConvWeight);
    let read = window_of(env, x, kernel, kept, i, c, t);
    (a.apply)(
        SameShape::Silu,
        (a.sum)(
            Seq::new(
                kernel,
                |k: int|
                    (a.pair)(
                        Pairwise::BroadcastMul,
                        read[k],
                        converted(
                            a,
                            w.format,
                            channel_format(env, x, kept),
                            (w.at)(seq![c, k]),
                        ),
                    ),
            ),
        ),
    )
}

/// Channel `c` of the dense layer at position `t`: what the kernel of the channel makes of the
/// window of the position, activated.
pub open spec fn dense_channel<E>(
    env: World<E>,
    x: Tensor<E>,
    kernel: nat,
    kept: bool,
    i: int,
    t: int,
    c: int,
) -> E {
    (env.arithmetic.apply)(
        SameShape::Silu,
        (env.arithmetic.conv)(c, window_of(env, x, kernel, kept, i, c, t)),
    )
}

/// Formulas over closed inputs are closed.
proof fn lemma_channels_closed(
    x: Rc<Node>,
    kept: bool,
    batch: usize,
    channels: usize,
    pad: usize,
)
    requires
        graph::closed(&x),
    ensures
        graph::closed(&padded(&mixed(x), kept, batch, channels, pad)),
{
    broadcast use graph::group_closed;

}

/// The channels of the quantized layer after its convolution.
#[verifier::rlimit(40)]
pub proof fn quantized_convolution<E>(
    w: StateSpaceWeights,
    x: Rc<Node>,
    env: World<E>,
    step: Step,
    idx: Seq<int>,
)
    requires
        w.conv_kernel_size >= 1,
        step.len >= 1,
        graph::closed(&x),
        (env.leaf)(Slot::ConvWeight).shape == seq![w.conv_dim as nat, w.conv_kernel_size as nat],
        channels_fit(
            env,
            value(&x, env),
            step,
            w.conv_dim,
            (w.conv_kernel_size - 1) as usize,
            w.primed && step.len == 1,
        ),
        within(seq![step.batch as nat, step.len as nat, w.conv_dim as nat], idx),
    ensures
        ({
            let r = value(&w.convolution(x, step), env);
            &&& r.shape == seq![step.batch as nat, step.len as nat, w.conv_dim as nat]
            &&& (r.at)(idx) == quantized_channel(
                env,
                value(&x, env),
                w.conv_kernel_size as nat,
                w.primed && step.len == 1,
                idx[0],
                idx[1],
                idx[2],
            )
        }),
{
    broadcast use meaning::group_value;

    let a = env.arithmetic;
    let kept = w.primed && step.len == 1;
    let pad = (w.conv_kernel_size - 1) as usize;
    let t = value(&x, env);
    let (b, s, c, n) = (
        step.batch as nat,
        step.len as nat,
        w.conv_dim as nat,
        w.conv_kernel_size as nat,
    );
    let full = seq![b, s, c];
    assert(0 <= idx[0] < full[0] && 0 <= idx[1] < full[1] && 0 <= idx[2] < full[2]);
    let input = w.conv_input(x, step);
    lemma_channels_closed(x, kept, step.batch, w.conv_dim, pad);
    lemma_channels_shape(x, env, step, w.conv_dim, pad, kept);
    let z = value(&input, env);
    let weights = (env.leaf)(Slot::ConvWeight);
    conv_laws::lemma_activated(false, input, step.len, w.conv_kernel_size, env);
    let items = Seq::new(s, |p: int| conv_laws::window(z, weights, n, p, a));
    conv_laws::lemma_window_shape(z, weights, b, c, n, 0, a);
    assert(items[0] == conv_laws::window(z, weights, n, 0, a));
    let laid = meaning::laid(items, 2);
    assert(laid.shape =~= seq![b, c, s]);
    let (i, p, ch) = (idx[0], idx[1], idx[2]);
    let at = seq![i, ch, p];
    assert(within(laid.shape, at));
    assert(idx.update(1, idx[2]).update(2, idx[1]) =~= at);
    conv_laws::lemma_window_shape(z, weights, b, c, n, p, a);
    let item = conv_laws::window(z, weights, n, p, a);
    assert(items[p] == item);
    assert((laid.at)(at) == (item.at)(at.update(2, 0)));
    let one = seq![i, ch, 0];
    assert(at.update(2, 0) =~= one);
    let two = seq![i, ch];
    assert(one.remove(2) =~= two);
    let part = meaning::narrowed(z, 2, p, n);
    let up = meaning::unsqueezed(meaning::formatted(weights, z.format, a), 0);
    let d = seq![b, c, n];
    assert(part.shape =~= d);
    assert(up.shape =~= seq![1, c, n]);
    shapes::lemma_broadcast3(d, seq![1, c, n]);
    let product = meaning::broadcasted(
        part,
        up,
        |p: E, q: E| (a.pair)(Pairwise::BroadcastMul, p, q),
    );
    let expected = Seq::new(
        n,
        |k: int|
            (a.pair)(
                Pairwise::BroadcastMul,
                window_of(env, t, n, kept, i, ch, p)[k],
                converted(
                    a,
                    weights.format,
                    channel_format(env, t, kept),
                    (weights.at)(seq![ch, k]),
                ),
            ),
    );
    assert(Seq::new(n, |k: int| (product.at)(two.insert(2, k))) =~= expected) by {
        assert forall|k: int| 0 <= k < n implies (product.at)(#[trigger] two.insert(2, k))
            == expected[k] by {
            let e = two.insert(2, k);
            assert(e =~= seq![i, ch, k]);
            assert(within(d, e));
            meaning::lemma_clipped(d, e);
            let from = e.update(2, e[2] + p);
            assert(within(seq![b, c, pad as nat + s], from));
            lemma_channels(x, env, step, w.conv_dim, pad, kept, from);
            let cut = clipped(up.shape, e);
            assert(cut =~= seq![0, ch, k]);
            assert(within(up.shape, cut));
            assert(cut.remove(0) =~= seq![ch, k]);
            assert(within(weights.shape, seq![ch, k]));
        }
    }
    assert(product.shape.remove(2) =~= seq![b, c]);
    assert(within(seq![b, c], two));
    let r = value(&w.convolution(x, step), env);
    assert(r.shape =~= full);
}

/// The channels of the dense layer after its convolution.
pub proof fn dense_convolution<E>(
    w: DeltaNetDims,
    x: Rc<Node>,
    env: World<E>,
    step: Step,
    kept: bool,
    idx: Seq<int>,
)
    requires
        w.conv_kernel_size >= 1,
        env.arithmetic.kernel == w.conv_kernel_size,
        channels_fit(
            env,
            value(&x, env),
            step,
            w.conv_dim,
            (w.conv_kernel_size - 1) as usize,
            kept,
        ),
        within(seq![step.batch as nat, step.len as nat, w.conv_dim as nat], idx),
    ensures
        ({
            let r = value(&w.convolution(x, step, kept), env);
            &&& r.shape == seq![step.batch as nat, step.len as nat, w.conv_dim as nat]
            &&& (r.at)(idx) == dense_channel(
                env,
                value(&x, env),
                w.conv_kernel_size as nat,
                kept,
                idx[0],
                idx[1],
                idx[2],
            )
        }),
{
    broadcast use meaning::group_value;

    let pad = (w.conv_kernel_size - 1) as usize;
    let t = value(&x, env);
    let (b, s, c, n) = (
        step.batch as nat,
        step.len as nat,
        w.conv_dim as nat,
        w.conv_kernel_size as nat,
    );
    let full = seq![b, s, c];
    assert(0 <= idx[0] < full[0] && 0 <= idx[1] < full[1] && 0 <= idx[2] < full[2]);
    lemma_channels_shape(x, env, step, w.conv_dim, pad, kept);
    let z = value(&w.conv_input(x, step, kept), env);
    let done = meaning::convolved(z, env.arithmetic);
    assert(done.shape =~= seq![b, c, s]);
    let (i, p, ch) = (idx[0], idx[1], idx[2]);
    let at = seq![i, ch, p];
    assert(within(done.shape, at));
    assert(idx.update(1, idx[2]).update(2, idx[1]) =~= at);
    assert(Seq::new(n, |k: int| (z.at)(at.update(2, at[2] + k))) =~= window_of(
        env,
        t,
        n,
        kept,
        i,
        ch,
        p,
    )) by {
        assert forall|k: int| 0 <= k < n implies (z.at)(#[trigger] at.update(2, at[2] + k))
            == channel_at(env, t, n - 1, kept, i, ch, p + k) by {
            let from = at.update(2, at[2] + k);
            assert(within(seq![b, c, pad as nat + s], from));
            lemma_channels(x, env, step, w.conv_dim, pad, kept, from);
        }
    }
    let r = value(&w.convolution(x, step, kept), env);
    assert(r.shape =~= full);
}

/// `log(1 + exp(e + dt_bias))` for head `h`, from a number `e` of the format `f`.
pub open spec fn softened<E>(env: World<E>, e: E, f: int, h: int) -> E {
    let a = env.arithmetic;
    (a.apply)(
        SameShape::Log,
        (a.plus)(
            (a.apply)(
                SameShape::Exp,
                (a.pair)(
                    Pairwise::BroadcastAdd,
                    converted(a, f, a.single, e),
                    ((env.leaf)(Slot::DtBias).at)(seq![h]),
                ),
            ),
            Scalar::One,
        ),
    )
}

/// The projections of decay and of what is written have a number for each of `heads` heads.
pub open spec fn head_numbers_fit<E>(env: World<E>, x: Tensor<E>, step: Step, heads: nat) -> bool {
    &&& x.shape.len() == 3
    &&& x.shape[0] == step.batch
    &&& x.shape[1] == step.len
    &&& (env.arithmetic.width)(Projection::Alpha) == heads
    &&& (env.arithmetic.width)(Projection::Beta) == heads
    &&& (env.leaf)(Slot::DtBias).shape == seq![heads]
    &&& (env.leaf)(Slot::NegativeDecay).shape == seq![heads]
}

/// The softened projection of the decay.
proof fn lemma_softened<E>(x: Rc<Node>, env: World<E>, step: Step, heads: nat, idx: Seq<int>)
    requires
        head_numbers_fit(env, value(&x, env), step, heads),
        within(seq![step.batch as nat, step.len as nat, heads], idx),
    ensures
        ({
            let t = value(&x, env);
            let s = softplus(
                &ops::linear(Projection::Alpha, &ops::apply(SameShape::Contiguous, &x)),
            );
            let r = value(&s, env);
            let e = (env.arithmetic.linear)(Projection::Alpha, row_of(t, idx[0], idx[1]))[idx[2]];
            &&& r.shape == seq![step.batch as nat, step.len as nat, heads]
            &&& (r.at)(idx) == softened(env, e, t.format, idx[2])
        }),
{
    broadcast use meaning::group_value;

    let full = seq![step.batch as nat, step.len as nat, heads];
    let t = value(&x, env);
    assert(t.shape.update(2, heads) =~= full);
    lemma_linear(Projection::Alpha, x, env, idx);
    lemma_broadcast_row(full);
    meaning::lemma_clipped(full, idx);
    assert(0 <= idx[2] < full[2]);
    assert(clipped(seq![heads], idx) =~= seq![idx[2]]);
}

/// A part of the channels, split into heads.
proof fn lemma_part_in_heads<E>(
    t: Tensor<E>,
    b: nat,
    s: nat,
    start: nat,
    h: nat,
    d: nat,
    idx: Seq<int>,
)
    requires
        t.shape.len() == 3,
        t.shape[0] == b,
        t.shape[1] == s,
        start + h * d <= t.shape[2],
        within(seq![b, s, h, d], idx),
    ensures
        (meaning::reshaped(
            meaning::narrowed(t, 2, start as int, h * d),
            seq![b, s, h, d],
        ).at)(idx) == (t.at)(seq![idx[0], idx[1], start + idx[2] * d + idx[3]]),
{
    let part = meaning::narrowed(t, 2, start as int, h * d);
    assert(part.shape =~= seq![b, s, h * d]);
    attention_laws::lemma_in_heads(part, b, s, h, d, idx);
    let at = seq![idx[0], idx[1], idx[2] * d + idx[3]];
    assert(at.update(2, at[2] + start) =~= seq![
        idx[0],
        idx[1],
        start + idx[2] * d + idx[3],
    ]);
}

/// The inputs of the delta rule in the quantized layer. The channels of a position are its queries,
/// then its keys, then its values, head behind head; the decay is the softened projection times the
/// negative rate of the head, and the logistic function of a projection says how much is written.
pub proof fn quantized_delta_inputs<E>(
    w: StateSpaceWeights,
    x: Rc<Node>,
    env: World<E>,
    step: Step,
    i: int,
    t: int,
    h: int,
    k: int,
)
    requires
        w.well_formed(),
        head_numbers_fit(env, value(&x, env), step, w.num_v_heads as nat),
        value(&w.convolution(x, step), env).shape == seq![
            step.batch as nat,
            step.len as nat,
            w.conv_dim as nat,
        ],
        0 <= i < step.batch,
        0 <= t < step.len,
        0 <= h < w.num_v_heads,
    ensures
        ({
            let a = env.arithmetic;
            let qkv = value(&w.convolution(x, step), env);
            let inputs = w.delta_inputs(x, step);
            let row = row_of(value(&x, env), i, t);
            let (kd, vd) = (w.head_k_dim, w.head_v_dim);
            &&& 0 <= k < kd ==> {
                &&& (value(&inputs.query, env).at)(seq![i, t, h, k]) == (qkv.at)(
                    seq![i, t, h * kd + k],
                )
                &&& (value(&inputs.key, env).at)(seq![i, t, h, k]) == (qkv.at)(
                    seq![i, t, w.key_dim + h * kd + k],
                )
            }
            &&& 0 <= k < vd ==> (value(&inputs.value, env).at)(seq![i, t, h, k]) == (qkv.at)(
                seq![i, t, 2 * w.key_dim + h * vd + k],
            )
            &&& (value(&inputs.decay, env).at)(seq![i, t, h]) == (a.pair)(
                Pairwise::BroadcastMul,
                softened(
                    env,
                    (a.linear)(Projection::Alpha, row)[h],
                    value(&x, env).format,
                    h,
                ),
                ((env.leaf)(Slot::NegativeDecay).at)(seq![h]),
            )
            &&& (value(&inputs.beta, env).at)(seq![i, t, h]) == (a.apply)(
                SameShape::Sigmoid,
                (a.linear)(Projection::Beta, row)[h],
            )
        }),
{
    broadcast use meaning::group_value;

    state_space::lemma_repeats(w);
    let (b, s, n) = (step.batch as nat, step.len as nat, w.num_v_heads as nat);
    let (kd, vd) = (w.head_k_dim as nat, w.head_v_dim as nat);
    let qkv = value(&w.convolution(x, step), env);
    let idx = seq![i, t, h, k];
    if 0 <= k < kd {
        assert(within(seq![b, s, n, kd], idx));
        lemma_part_in_heads(qkv, b, s, 0, n, kd, idx);
        lemma_part_in_heads(qkv, b, s, w.key_dim as nat, n, kd, idx);
    }
    if 0 <= k < vd {
        assert(within(seq![b, s, n, vd], idx));
        lemma_part_in_heads(qkv, b, s, (w.key_dim * 2) as nat, n, vd, idx);
    }
    let full = seq![b, s, n];
    let at = seq![i, t, h];
    assert(within(full, at));
    lemma_softened(x, env, step, n, at);
    lemma_broadcast_row(full);
    meaning::lemma_clipped(full, at);
    assert(clipped(seq![n], at) =~= seq![h]);
    assert(value(&x, env).shape.update(2, n) =~= full);
    lemma_linear(Projection::Beta, x, env, at);
}

/// The inputs of the delta rule in the dense layer: as in the quantized one, but that neighbouring
/// value heads share a query and a key head, and that the rates stand in front of the product.
#[verifier::rlimit(40)]
pub proof fn dense_delta_inputs<E>(
    w: DeltaNetDims,
    x: Rc<Node>,
    env: World<E>,
    step: Step,
    kept: bool,
    i: int,
    t: int,
    h: int,
    k: int,
)
    requires
        w.runnable(),
        w.head_k_dim > 0,
        w.head_v_dim > 0,
        w.num_k_heads * (w.num_v_heads / w.num_k_heads) == w.num_v_heads,
        head_numbers_fit(env, value(&x, env), step, w.num_v_heads as nat),
        value(&w.convolution(x, step, kept), env).shape == seq![
            step.batch as nat,
            step.len as nat,
            w.conv_dim as nat,
        ],
        0 <= i < step.batch,
        0 <= t < step.len,
        0 <= h < w.num_v_heads,
    ensures
        ({
            let a = env.arithmetic;
            let qkv = value(&w.convolution(x, step, kept), env);
            let inputs = w.delta_inputs(x, step, kept);
            let row = row_of(value(&x, env), i, t);
            let (kd, vd) = (w.head_k_dim, w.head_v_dim);
            let shared = h / (w.num_v_heads / w.num_k_heads) as int;
            &&& 0 <= k < kd ==> {
                &&& (value(&inputs.query, env).at)(seq![i, t, h, k]) == (qkv.at)(
                    seq![i, t, shared * kd + k],
                )
                &&& (value(&inputs.key, env).at)(seq![i, t, h, k]) == (qkv.at)(
                    seq![i, t, w.key_dim + shared * kd + k],
                )
            }
            &&& 0 <= k < vd ==> (value(&inputs.value, env).at)(seq![i, t, h, k]) == (qkv.at)(
                seq![i, t, 2 * w.key_dim + h * vd + k],
            )
            &&& (value(&inputs.decay, env).at)(seq![i, t, h]) == (a.pair)(
                Pairwise::BroadcastMul,
                ((env.leaf)(Slot::NegativeDecay).at)(seq![h]),
                softened(
                    env,
                    (a.linear)(Projection::Alpha, row)[h],
                    value(&x, env).format,
                    h,
                ),
            )
            &&& (value(&inputs.beta, env).at)(seq![i, t, h]) == (a.apply)(
                SameShape::Sigmoid,
                (a.linear)(Projection::Beta, row)[h],
            )
        }),
{
    broadcast use meaning::group_value;

    let (b, s, n) = (step.batch as nat, step.len as nat, w.num_v_heads as nat);
    let (g, kd, vd) = (w.num_k_heads as nat, w.head_k_dim as nat, w.head_v_dim as nat);
    let m = (w.num_v_heads / w.num_k_heads) as nat;
    let qkv = value(&w.convolution(x, step, kept), env);
    let idx = seq![i, t, h, k];
    assert(w.key_dim == g * kd) by (nonlinear_arith)
        requires
            w.key_dim == kd * g,
    ;
    assert(w.value_dim == n * vd) by (nonlinear_arith)
        requires
            w.value_dim == vd * n,
    ;
    if 0 <= k < kd {
        lemma_shared_head(qkv, step, 0, g, m, w.head_k_dim, idx);
        lemma_shared_head(qkv, step, w.key_dim as nat, g, m, w.head_k_dim, idx);
        let heads = w.key_heads(step);
        let q = split(&ops::narrow(&w.convolution(x, step, kept), 2, 0, w.key_dim), step, w.head_k_dim);
        let c = split(
            &ops::narrow(&w.convolution(x, step, kept), 2, w.key_dim, w.key_dim),
            step,
            w.head_k_dim,
        );
        shapes::lemma_split_into(step.batch, step.len, g * kd, g, w.head_k_dim);
        let (pq, pc) = (
            meaning::narrowed(qkv, 2, 0, g * kd),
            meaning::narrowed(qkv, 2, w.key_dim as int, g * kd),
        );
        assert(pq.shape =~= seq![b, s, g * kd]);
        assert(pc.shape =~= seq![b, s, g * kd]);
        assert(value(&q, env) == meaning::reshaped(pq, seq![b, s, g, kd]));
        assert(value(&c, env) == meaning::reshaped(pc, seq![b, s, g, kd]));
    }
    if 0 <= k < vd {
        assert(within(seq![b, s, n, vd], idx));
        lemma_part_in_heads(qkv, b, s, (w.key_dim * 2) as nat, n, vd, idx);
        shapes::lemma_split_into(step.batch, step.len, n * vd, n, w.head_v_dim);
        let pv = meaning::narrowed(qkv, 2, w.key_dim * 2, n * vd);
        assert(pv.shape =~= seq![b, s, n * vd]);
    }
    let full = seq![b, s, n];
    let at = seq![i, t, h];
    assert(within(full, at));
    lemma_softened(x, env, step, n, at);
    shapes::lemma_broadcast_last(full, n);
    meaning::lemma_clipped(full, at);
    assert(clipped(seq![n], at) =~= seq![h]);
    assert(value(&x, env).shape.update(2, n) =~= full);
    lemma_linear(Projection::Beta, x, env, at);
}

/// Heads of a part of the channels, each shared by `m` neighbours.
proof fn lemma_shared_head<E>(
    t: Tensor<E>,
    step: Step,
    start: nat,
    g: nat,
    m: nat,
    width: usize,
    idx: Seq<int>,
)
    requires
        t.shape.len() == 3,
        t.shape[0] == step.batch,
        t.shape[1] == step.len,
        start + g * width as nat <= t.shape[2],
        idx.len() == 4,
        0 <= idx[0] < step.batch,
        0 <= idx[1] < step.len,
        0 <= idx[2] < g * m,
        0 <= idx[3] < width,
    ensures
        ({
            let (b, s, d) = (step.batch as nat, step.len as nat, width as nat);
            let heads = meaning::reshaped(
                meaning::narrowed(t, 2, start as int, g * d),
                seq![b, s, g, d],
            );
            let found = (t.at)(
                seq![idx[0], idx[1], start + (idx[2] / m as int) * width + idx[3]],
            );
            let spread = meaning::reshaped(
                meaning::expanded(meaning::unsqueezed(heads, 3), seq![b, s, g, m, d]),
                seq![b, s, g * m, d],
            );
            &&& m == 1 ==> (heads.at)(idx) == found
            &&& (spread.at)(idx) == found
        }),
{
    let (b, s, d) = (step.batch as nat, step.len as nat, width as nat);
    let heads = meaning::reshaped(
        meaning::narrowed(t, 2, start as int, g * d),
        seq![b, s, g, d],
    );
    assert(within(seq![b, s, g * m, d], idx));
    dense_recurrence_laws::lemma_repeated_element(heads, b, s, g, m, d, idx);
    let from = seq![idx[0], idx[1], idx[2] / m as int, idx[3]];
    lemma_part_in_heads(t, b, s, start, g, d, from);
    if m == 1 {
        assert(from =~= idx);
    }
}

/// The gated norm of an answer, for a layer whose input has the format `f`. The answer is brought to
/// that format; in single precision it is scaled to a mean square of one, weighted, and multiplied
/// by the activated gate.
pub open spec fn gated_answer<E>(
    a: Arithmetic<E>,
    eps: FloatSetting,
    weights: Seq<E>,
    answer: Seq<E>,
    gate: Seq<E>,
    f: int,
) -> Seq<E> {
    let s = Seq::new(
        answer.len(),
        |j: int| converted(a, f, a.single, converted(a, a.single, f, answer[j])),
    );
    let scale = inverse_root_mean_square(a, eps, s);
    Seq::new(
        answer.len(),
        |j: int|
            converted(
                a,
                a.single,
                f,
                (a.pair)(
                    Pairwise::BroadcastMul,
                    (a.pair)(
                        Pairwise::BroadcastMul,
                        (a.pair)(Pairwise::BroadcastMul, s[j], scale),
                        weights[j],
                    ),
                    (a.apply)(SameShape::Silu, converted(a, f, a.single, gate[j])),
                ),
            ),
    )
}

/// The same in the dense layer, whose weights have the format `v`: weighted answer and activated
/// gate are brought to the format of the input before they are multiplied.
pub open spec fn dense_gated_answer<E>(
    a: Arithmetic<E>,
    eps: FloatSetting,
    weights: Seq<E>,
    v: int,
    answer: Seq<E>,
    gate: Seq<E>,
    f: int,
) -> Seq<E> {
    let s = Seq::new(
        answer.len(),
        |j: int| converted(a, f, a.single, converted(a, a.single, f, answer[j])),
    );
    let scale = inverse_root_mean_square(a, eps, s);
    Seq::new(
        answer.len(),
        |j: int|
            (a.pair)(
                Pairwise::BroadcastMul,
                converted(
                    a,
                    a.single,
                    f,
                    (a.pair)(
                        Pairwise::BroadcastMul,
                        (a.pair)(Pairwise::BroadcastMul, s[j], scale),
                        converted(a, v, a.single, weights[j]),
                    ),
                ),
                converted(
                    a,
                    a.single,
                    f,
                    (a.apply)(SameShape::Silu, converted(a, f, a.single, gate[j])),
                ),
            ),
    )
}

/// The answers of the rule in head `h` at position `t` of sequence `i`.
pub open spec fn answers_of<E>(answers: Tensor<E>, i: int, t: int, h: int) -> Seq<E> {
    Seq::new(answers.shape[3], |j: int| (answers.at)(seq![i, t, h, j]))
}

/// The gates of head `h`, from the row of a position.
pub open spec fn gates_of<E>(env: World<E>, row: Seq<E>, h: int, width: nat) -> Seq<E> {
    Seq::new(width, |j: int| (env.arithmetic.linear)(Projection::MixerGate, row)[h * width + j])
}

/// The row through an index of four dimensions.
proof fn lemma_row4<E>(t: Tensor<E>, idx: Seq<int>)
    requires
        t.shape.len() == 4,
        idx.len() == 4,
    ensures
        line(t, 3, idx) == answers_of(t, idx[0], idx[1], idx[2]),
{
    assert(line(t, 3, idx) =~= answers_of(t, idx[0], idx[1], idx[2])) by {
        assert forall|k: int| 0 <= k < t.shape[3] implies #[trigger] idx.update(3, k) == seq![
            idx[0],
            idx[1],
            idx[2],
            k,
        ] by {
            assert(idx.update(3, k) =~= seq![idx[0], idx[1], idx[2], k]);
        }
    }
}

/// The answers in the format of the input, and the gates, row by row.
proof fn lemma_answer_rows<E>(
    x: Rc<Node>,
    answers: Rc<Node>,
    gate: Rc<Node>,
    env: World<E>,
    b: nat,
    s: nat,
    h: nat,
    vd: nat,
    from: Seq<int>,
)
    requires
        value(&x, env).shape.len() == 3,
        value(&x, env).shape[0] == b,
        value(&x, env).shape[1] == s,
        (env.arithmetic.width)(Projection::MixerGate) == h * vd,
        value(&answers, env).shape == seq![b, s, h, vd],
        value(&answers, env).format == env.arithmetic.single,
        value(&gate, env) == meaning::reshaped(
            value(
                &ops::linear(Projection::MixerGate, &ops::apply(SameShape::Contiguous, &x)),
                env,
            ),
            seq![b, s, h, vd],
        ),
        within(seq![b, s, h, vd], from),
    ensures
        ({
            let a = env.arithmetic;
            let f = value(&x, env).format;
            let shown = value(
                &ops::pair(
                    Pairwise::FormatOf,
                    &answers,
                    &ops::apply(SameShape::Contiguous, &x),
                ),
                env,
            );
            let found = answers_of(value(&answers, env), from[0], from[1], from[2]);
            let row = row_of(value(&x, env), from[0], from[1]);
            &&& shown.shape == seq![b, s, h, vd]
            &&& shown.format == f
            &&& value(&gate, env).shape == seq![b, s, h, vd]
            &&& value(&gate, env).format == f
            &&& line(shown, 3, from) == Seq::new(
                vd,
                |j: int| converted(a, a.single, f, found[j]),
            )
            &&& line(value(&gate, env), 3, from) == gates_of(env, row, from[2], vd)
        }),
{
    broadcast use meaning::group_value;

    let a = env.arithmetic;
    let t = value(&x, env);
    let f = t.format;
    let full = seq![b, s, h, vd];
    assert(0 <= from[0] < full[0] && 0 <= from[1] < full[1] && 0 <= from[2] < full[2] && 0
        <= from[3] < full[3]);
    let shown = value(
        &ops::pair(Pairwise::FormatOf, &answers, &ops::apply(SameShape::Contiguous, &x)),
        env,
    );
    let found = answers_of(value(&answers, env), from[0], from[1], from[2]);
    assert(line(shown, 3, from) =~= Seq::new(vd, |j: int| converted(a, a.single, f, found[j]))) by {
        assert forall|j: int| 0 <= j < vd implies (shown.at)(#[trigger] from.update(3, j))
            == converted(a, a.single, f, found[j]) by {
            assert(from.update(3, j) =~= seq![from[0], from[1], from[2], j]);
            assert(within(full, from.update(3, j)));
        }
    }
    let plain = value(
        &ops::linear(Projection::MixerGate, &ops::apply(SameShape::Contiguous, &x)),
        env,
    );
    assert(plain.shape =~= seq![b, s, h * vd]);
    let row = row_of(t, from[0], from[1]);
    let g = value(&gate, env);
    assert(line(g, 3, from) =~= gates_of(env, row, from[2], vd)) by {
        assert forall|j: int| 0 <= j < vd implies (g.at)(#[trigger] from.update(3, j)) == (
        a.linear)(Projection::MixerGate, row)[from[2] * vd + j] by {
            let i = from.update(3, j);
            assert(within(full, i));
            attention_laws::lemma_in_heads(plain, b, s, h, vd, i);
            let at = seq![i[0], i[1], i[2] * vd + i[3]];
            assert(t.shape.update(2, h * vd) =~= seq![b, s, h * vd]);
            lemma_linear(Projection::MixerGate, x, env, at);
        }
    }
}

/// The output of the quantized layer: each position is the output projection of the gated norms of
/// what its heads answer, head behind head.
#[verifier::rlimit(40)]
pub proof fn quantized_output<E>(
    w: StateSpaceWeights,
    x: Rc<Node>,
    env: World<E>,
    step: Step,
    idx: Seq<int>,
)
    requires
        w.well_formed(),
        w.head_v_dim > 0,
        value(&x, env).shape.len() == 3,
        value(&x, env).shape[0] == step.batch,
        value(&x, env).shape[1] == step.len,
        (env.arithmetic.width)(Projection::MixerGate) == w.value_dim,
        (env.leaf)(Slot::GatedNorm).shape == seq![w.head_v_dim as nat],
        value(&crate::delta::answers(&w.rule(x, step)), env).shape == seq![
            step.batch as nat,
            step.len as nat,
            w.num_v_heads as nat,
            w.head_v_dim as nat,
        ],
        value(&crate::delta::answers(&w.rule(x, step)), env).format == env.arithmetic.single,
        within(
            seq![
                step.batch as nat,
                step.len as nat,
                (env.arithmetic.width)(Projection::MixerOutput),
            ],
            idx,
        ),
    ensures
        ({
            let a = env.arithmetic;
            let vd = w.head_v_dim as nat;
            let found = value(&crate::delta::answers(&w.rule(x, step)), env);
            let row = row_of(value(&x, env), idx[0], idx[1]);
            let r = value(&w.output(x, step), env);
            &&& r.shape == seq![
                step.batch as nat,
                step.len as nat,
                (a.width)(Projection::MixerOutput),
            ]
            &&& (r.at)(idx) == (a.linear)(
                Projection::MixerOutput,
                Seq::new(
                    w.value_dim as nat,
                    |c: int|
                        gated_answer(
                            a,
                            w.norm_eps,
                            line((env.leaf)(Slot::GatedNorm), 0, seq![0]),
                            answers_of(found, idx[0], idx[1], c / vd as int),
                            gates_of(env, row, c / vd as int, vd),
                            value(&x, env).format,
                        )[c % vd as int],
                ),
            )[idx[2]]
        }),
{
    broadcast use meaning::group_value;

    let a = env.arithmetic;
    let t = value(&x, env);
    let f = t.format;
    let (b, s, h, vd) = (
        step.batch as nat,
        step.len as nat,
        w.num_v_heads as nat,
        w.head_v_dim as nat,
    );
    let n = (a.width)(Projection::MixerOutput);
    let full = seq![b, s, n];
    assert(0 <= idx[0] < full[0] && 0 <= idx[1] < full[1] && 0 <= idx[2] < full[2]);
    let states = ops::apply(SameShape::Contiguous, &x);
    let answers = crate::delta::answers(&w.rule(x, step));
    let shown = ops::pair(Pairwise::FormatOf, &answers, &states);
    let gate = ops::reshape(
        &ops::linear(Projection::MixerGate, &states),
        graph::Dims::Four(step.batch, step.len, w.num_v_heads, w.head_v_dim),
    );
    let joint = recurrence_laws::joined_rows(
        &shown,
        &gate,
        w.norm_eps,
        step.batch,
        step.len,
        w.head_v_dim,
        w.value_dim,
    );
    assert(w.output(x, step) == ops::linear(Projection::MixerOutput, &joint));
    let found = value(&answers, env);
    let row = row_of(t, idx[0], idx[1]);
    let weights = line((env.leaf)(Slot::GatedNorm), 0, seq![0]);
    let expected = Seq::new(
        w.value_dim as nat,
        |c: int|
            gated_answer(
                a,
                w.norm_eps,
                weights,
                answers_of(found, idx[0], idx[1], c / vd as int),
                gates_of(env, row, c / vd as int, vd),
                f,
            )[c % vd as int],
    );
    let j = value(&joint, env);
    assert(h * vd > 0) by (nonlinear_arith)
        requires
            h > 0,
            vd > 0,
    ;
    assert forall|c: int| 0 <= c < w.value_dim implies j.shape == seq![b, s, w.value_dim as nat]
        && (j.at)(#[trigger] idx.update(2, c)) == expected[c] by {
        let at = idx.update(2, c);
        assert(within(seq![b, s, w.value_dim as nat], at));
        let from = seq![at[0], at[1], at[2] / vd as int, at[2] % vd as int];
        crate::cache_laws::lemma_merged_place(b, s, h, vd, at);
        lemma_answer_rows(x, answers, gate, env, b, s, h, vd, from);
        recurrence_laws::lemma_joined_rows(
            shown,
            gate,
            w.norm_eps,
            env,
            step.batch,
            step.len,
            h,
            w.head_v_dim,
            w.value_dim,
            at,
        );
        let answer = answers_of(found, idx[0], idx[1], c / vd as int);
        let gates = gates_of(env, row, c / vd as int, vd);
        let r = Seq::new(vd, |m: int| converted(a, a.single, f, answer[m]));
        lemma_gated_answer(a, w.norm_eps, weights, answer, gates, f, r);
        assert(0 <= c % (vd as int) < vd);
    }
    assert(j.shape == seq![b, s, w.value_dim as nat]) by {
        assert(0 <= 0 < w.value_dim);
        assert(idx.update(2, 0) == idx.update(2, 0));
    }
    assert(line(j, 2, idx) =~= expected);
    assert(value(&w.output(x, step), env).shape =~= full);
}

/// The two ways to write the gated norm of an answer.
proof fn lemma_gated_answer<E>(
    a: Arithmetic<E>,
    eps: FloatSetting,
    weights: Seq<E>,
    answer: Seq<E>,
    gate: Seq<E>,
    f: int,
    shown: Seq<E>,
)
    requires
        shown == Seq::new(answer.len(), |m: int| converted(a, a.single, f, answer[m])),
    ensures
        recurrence_laws::gated_row(shown, f, gate, f, weights, eps, a) == gated_answer(
            a,
            eps,
            weights,
            answer,
            gate,
            f,
        ),
{
    let s = Seq::new(
        answer.len(),
        |j: int| converted(a, f, a.single, converted(a, a.single, f, answer[j])),
    );
    let t = shown.map_values(|e: E| crate::causal_laws::in_format(e, f, a.single, a));
    assert(s =~= t);
    lemma_scale(a, eps, s);
    assert(recurrence_laws::gated_row(shown, f, gate, f, weights, eps, a) =~= gated_answer(
        a,
        eps,
        weights,
        answer,
        gate,
        f,
    ));
}

proof fn lemma_scale<E>(a: Arithmetic<E>, eps: FloatSetting, s: Seq<E>)
    ensures
        recurrence_laws::row_scale(s, eps, a) == inverse_root_mean_square(a, eps, s),
{
    assert(s.map_values(|e: E| (a.apply)(SameShape::Sqr, e)) =~= Seq::new(
        s.len(),
        |k: int| (a.apply)(SameShape::Sqr, s[k]),
    ));
}

/// The output of the dense layer: each position is the output projection of the gated norms of what
/// its heads answer, head behind head.
#[verifier::rlimit(40)]
pub proof fn dense_output<E>(
    w: DeltaNetDims,
    x: Rc<Node>,
    env: World<E>,
    step: Step,
    kept: bool,
    idx: Seq<int>,
)
    requires
        w.runnable(),
        w.num_v_heads > 0,
        w.head_v_dim > 0,
        value(&x, env).shape.len() == 3,
        value(&x, env).shape[0] == step.batch,
        value(&x, env).shape[1] == step.len,
        (env.arithmetic.width)(Projection::MixerGate) == w.value_dim,
        (env.leaf)(Slot::GatedNorm).shape == seq![w.head_v_dim as nat],
        value(&crate::delta::answers(&w.rule(x, step, kept)), env).shape == seq![
            step.batch as nat,
            step.len as nat,
            w.num_v_heads as nat,
            w.head_v_dim as nat,
        ],
        value(&crate::delta::answers(&w.rule(x, step, kept)), env).format == env.arithmetic.single,
        within(
            seq![
                step.batch as nat,
                step.len as nat,
                (env.arithmetic.width)(Projection::MixerOutput),
            ],
            idx,
        ),
    ensures
        ({
            let a = env.arithmetic;
            let vd = w.head_v_dim as nat;
            let weight = (env.leaf)(Slot::GatedNorm);
            let found = value(&crate::delta::answers(&w.rule(x, step, kept)), env);
            let row = row_of(value(&x, env), idx[0], idx[1]);
            let r = value(&w.output(x, step, kept), env);
            &&& r.shape == seq![
                step.batch as nat,
                step.len as nat,
                (a.width)(Projection::MixerOutput),
            ]
            &&& (r.at)(idx) == (a.linear)(
                Projection::MixerOutput,
                Seq::new(
                    w.value_dim as nat,
                    |c: int|
                        dense_gated_answer(
                            a,
                            FloatSetting::Double(w.norm_eps),
                            line(weight, 0, seq![0]),
                            weight.format,
                            answers_of(found, idx[0], idx[1], c / vd as int),
                            gates_of(env, row, c / vd as int, vd),
                            value(&x, env).format,
                        )[c % vd as int],
                ),
            )[idx[2]]
        }),
{
    broadcast use meaning::group_value;

    let a = env.arithmetic;
    let t = value(&x, env);
    let f = t.format;
    let (b, s, h, vd) = (
        step.batch as nat,
        step.len as nat,
        w.num_v_heads as nat,
        w.head_v_dim as nat,
    );
    let n = (a.width)(Projection::MixerOutput);
    let full = seq![b, s, n];
    assert(0 <= idx[0] < full[0] && 0 <= idx[1] < full[1] && 0 <= idx[2] < full[2]);
    let states = ops::apply(SameShape::Contiguous, &x);
    let answers = crate::delta::answers(&w.rule(x, step, kept));
    let shown = ops::pair(Pairwise::FormatOf, &answers, &states);
    let gate = split(&ops::linear(Projection::MixerGate, &states), step, w.head_v_dim);
    assert(w.value_dim == h * vd) by (nonlinear_arith)
        requires
            w.value_dim == vd * h,
    ;
    shapes::lemma_split_into(step.batch, step.len, h * vd, h, w.head_v_dim);
    let plain = value(&ops::linear(Projection::MixerGate, &states), env);
    assert(plain.shape =~= seq![b, s, h * vd]);
    assert(value(&gate, env) == meaning::reshaped(plain, seq![b, s, h, vd]));
    let joint = dense_recurrence_laws::joined_rows(
        &shown,
        &gate,
        w.norm_eps,
        step.batch,
        step.len,
        w.head_v_dim,
    );
    assert(w.output(x, step, kept) == ops::linear(Projection::MixerOutput, &joint));
    let found = value(&answers, env);
    let row = row_of(t, idx[0], idx[1]);
    let weight = (env.leaf)(Slot::GatedNorm);
    let weights = line(weight, 0, seq![0]);
    let eps = FloatSetting::Double(w.norm_eps);
    let expected = Seq::new(
        w.value_dim as nat,
        |c: int|
            dense_gated_answer(
                a,
                eps,
                weights,
                weight.format,
                answers_of(found, idx[0], idx[1], c / vd as int),
                gates_of(env, row, c / vd as int, vd),
                f,
            )[c % vd as int],
    );
    let j = value(&joint, env);
    assert(h * vd > 0) by (nonlinear_arith)
        requires
            h > 0,
            vd > 0,
    ;
    assert forall|c: int| 0 <= c < w.value_dim implies j.shape == seq![b, s, w.value_dim as nat]
        && (j.at)(#[trigger] idx.update(2, c)) == expected[c] by {
        let at = idx.update(2, c);
        assert(within(seq![b, s, h * vd], at));
        let from = seq![at[0], at[1], at[2] / vd as int, at[2] % vd as int];
        crate::cache_laws::lemma_merged_place(b, s, h, vd, at);
        lemma_answer_rows(x, answers, gate, env, b, s, h, vd, from);
        dense_recurrence_laws::lemma_joined_rows(
            shown,
            gate,
            w.norm_eps,
            env,
            step.batch,
            step.len,
            h,
            w.head_v_dim,
            at,
        );
        let answer = answers_of(found, idx[0], idx[1], c / vd as int);
        let gates = gates_of(env, row, c / vd as int, vd);
        let r = Seq::new(vd, |m: int| converted(a, a.single, f, answer[m]));
        lemma_dense_gated_answer(a, eps, weights, weight.format, answer, gates, f, r);
        assert(0 <= c % (vd as int) < vd);
    }
    assert(j.shape == seq![b, s, w.value_dim as nat]) by {
        assert(0 <= 0 < w.value_dim);
        assert(idx.update(2, 0) == idx.update(2, 0));
    }
    assert(line(j, 2, idx) =~= expected);
    assert(value(&w.output(x, step, kept), env).shape =~= full);
}

/// The two ways to write the gated norm of an answer in the dense layer.
proof fn lemma_dense_gated_answer<E>(
    a: Arithmetic<E>,
    eps: FloatSetting,
    weights: Seq<E>,
    v: int,
    answer: Seq<E>,
    gate: Seq<E>,
    f: int,
    shown: Seq<E>,
)
    requires
        shown == Seq::new(answer.len(), |m: int| converted(a, a.single, f, answer[m])),
    ensures
        dense_recurrence_laws::gated_row(shown, f, gate, f, weights, v, eps, a)
            == dense_gated_answer(a, eps, weights, v, answer, gate, f),
{
    let s = Seq::new(
        answer.len(),
        |j: int| converted(a, f, a.single, converted(a, a.single, f, answer[j])),
    );
    let t = shown.map_values(|e: E| crate::causal_laws::in_format(e, f, a.single, a));
    assert(s =~= t);
    lemma_scale(a, eps, s);
    assert(dense_recurrence_laws::gated_row(shown, f, gate, f, weights, v, eps, a)
        =~= dense_gated_answer(a, eps, weights, v, answer, gate, f));
}

/// The rule of the quantized layer runs over all positions of the step, for each head a matrix of
/// its widths, and goes on from the kept matrices exactly where a single position follows them.
pub proof fn quantized_rule(w: StateSpaceWeights, x: Rc<Node>, step: Step)
    ensures
        w.rule(x, step) == torch_recurrent_gated_delta_rule(
            &w.delta_inputs(x, step),
            DeltaDims {
                batch: step.batch,
                heads: w.num_v_heads,
                len: step.len,
                key_width: w.head_k_dim,
                value_width: w.head_v_dim,
            },
            w.primed && step.len == 1,
        ),
        w.continues(step) <==> w.primed && step.len == 1,
{
}

/// The rule of the dense layer: the same, with a matrix for each value head.
pub proof fn dense_rule(w: DeltaNetDims, x: Rc<Node>, step: Step, kept: bool)
    requires
        w.num_k_heads * (w.num_v_heads / w.num_k_heads) == w.num_v_heads,
    ensures
        w.rule(x, step, kept) == torch_recurrent_gated_delta_rule(
            &w.delta_inputs(x, step, kept),
            DeltaDims {
                batch: step.batch,
                heads: w.num_v_heads,
                len: step.len,
                key_width: w.head_k_dim,
                value_width: w.head_v_dim,
            },
            kept,
        ),
{
}

/// The negative rates of the dense layer: minus the exponentials of their logarithms, in single
/// precision.
pub proof fn rates_are_negative_exponentials<E>(env: World<E>, idx: Seq<int>)
    requires
        within((env.leaf)(Slot::ALog).shape, idx),
    ensures
        ({
            let a = env.arithmetic;
            let logs = (env.leaf)(Slot::ALog);
            (value(&crate::delta_net::negative_decay(), env).at)(idx) == (a.times)(
                (a.apply)(SameShape::Exp, converted(a, logs.format, a.single, (logs.at)(idx))),
                Scalar::MinusOne,
            )
        }),
{
    broadcast use meaning::group_value;

}

}
