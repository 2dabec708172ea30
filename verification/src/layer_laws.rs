//! What the layers compute, element by element: the residual sums, the feed-forward part, the norms,
//! and the scores in the end.
use crate::graph;
use crate::graph::{FloatSetting, Node, Pairwise, Projection, SameShape, Scalar, Slot};
use crate::loading::LayerWeights;
use crate::meaning;
use crate::meaning::{clipped, line, value, within, Arithmetic, Tensor, World};
use crate::ops;
use crate::pass::{ForwardPass, Kept, Step};
use crate::quantized_qwen3_5;
use crate::qwen3_5;
use crate::qwen3_5::{LayerState, MixerState};
use std::rc::Rc;
use vstd::prelude::*;

verus! {

/// The norm of a row has as many elements as the row.
pub open spec fn norms_keep_length<E>(a: Arithmetic<E>) -> bool {
    forall|eps: FloatSetting, weight: Seq<E>, row: Seq<E>|
        (#[trigger] (a.rms_norm)(eps, weight, row)).len() == row.len()
}

/// What the feed-forward part makes of a row: `down(act(gate(row)) * up(row))`.
pub open spec fn fed_forward<E>(a: Arithmetic<E>, act: SameShape, row: Seq<E>) -> Seq<E> {
    (a.linear)(
        Projection::Down,
        Seq::new(
            (a.width)(Projection::Gate),
            |j: int|
                (a.pair)(
                    Pairwise::Mul,
                    (a.apply)(act, (a.linear)(Projection::Gate, row)[j]),
                    (a.linear)(Projection::Up, row)[j],
                ),
        ),
    )
}

/// The row of `x + y` through `idx`.
pub open spec fn summed_row<E>(x: Tensor<E>, y: Tensor<E>, idx: Seq<int>, a: Arithmetic<E>) -> Seq<
    E,
> {
    let last = x.shape.len() - 1;
    Seq::new(
        x.shape[last],
        |k: int|
            (a.pair)(Pairwise::Add, (x.at)(idx.update(last, k)), (y.at)(idx.update(last, k))),
    )
}

/// What the feed-forward part computes, with either activation.
#[verifier::rlimit(40)]
proof fn lemma_fed_forward<E>(act: SameShape, x: Rc<Node>, env: World<E>, idx: Seq<int>)
    requires
        act == SameShape::Silu || act == SameShape::HiddenAct,
        value(&x, env).shape.len() > 0,
        (env.arithmetic.width)(Projection::Up) == (env.arithmetic.width)(Projection::Gate),
        within(
            value(&x, env).shape.update(
                value(&x, env).shape.len() - 1,
                (env.arithmetic.width)(Projection::Down),
            ),
            idx,
        ),
    ensures
        ({
            let f = ops::linear(
                Projection::Down,
                &ops::pair(
                    Pairwise::Mul,
                    &ops::apply(act, &ops::linear(Projection::Gate, &x)),
                    &ops::linear(Projection::Up, &x),
                ),
            );
            let t = value(&x, env);
            let last = t.shape.len() - 1;
            &&& value(&f, env).shape == t.shape.update(
                last,
                (env.arithmetic.width)(Projection::Down),
            )
            &&& (value(&f, env).at)(idx) == fed_forward(env.arithmetic, act, line(t, last, idx))[idx[last]]
        }),
{
    broadcast use meaning::group_value;

    let a = env.arithmetic;
    let t = value(&x, env);
    let last = t.shape.len() - 1;
    let n = (a.width)(Projection::Gate);
    let gate = value(&ops::linear(Projection::Gate, &x), env);
    let up = value(&ops::linear(Projection::Up, &x), env);
    let product = ops::pair(
        Pairwise::Mul,
        &ops::apply(act, &ops::linear(Projection::Gate, &x)),
        &ops::linear(Projection::Up, &x),
    );
    let inner = value(&product, env);
    assert(inner.shape =~= t.shape.update(last, n));
    let row = line(t, last, idx);
    assert(line(inner, last, idx) =~= Seq::new(
        n,
        |j: int|
            (a.pair)(
                Pairwise::Mul,
                (a.apply)(act, (a.linear)(Projection::Gate, row)[j]),
                (a.linear)(Projection::Up, row)[j],
            ),
    )) by {
        assert forall|j: int| 0 <= j < n implies (inner.at)(#[trigger] idx.update(last, j)) == (
        a.pair)(
            Pairwise::Mul,
            (a.apply)(act, (a.linear)(Projection::Gate, row)[j]),
            (a.linear)(Projection::Up, row)[j],
        ) by {
            let i = idx.update(last, j);
            assert(within(t.shape.update(last, n), i));
            assert(line(t, last, i) =~= row) by {
                assert forall|k: int| 0 <= k < t.shape[last] implies #[trigger] i.update(last, k)
                    == idx.update(last, k) by {
                    assert(i.update(last, k) =~= idx.update(last, k));
                }
            }
            assert((gate.at)(i) == (a.linear)(Projection::Gate, row)[j]);
            assert((up.at)(i) == (a.linear)(Projection::Up, row)[j]);
        }
    }
    assert(inner.shape.update(last, (a.width)(Projection::Down)) =~= t.shape.update(
        last,
        (a.width)(Projection::Down),
    ));
}

/// The row of a sum.
proof fn lemma_summed_row<E>(x: Tensor<E>, y: Tensor<E>, idx: Seq<int>, a: Arithmetic<E>)
    requires
        x.shape.len() > 0,
        within(x.shape, idx),
    ensures
        ({
            let last = x.shape.len() - 1;
            line(meaning::paired(Pairwise::Add, x, y, a), last, idx) == summed_row(x, y, idx, a)
        }),
{
    let last = x.shape.len() - 1;
    let sum = meaning::paired(Pairwise::Add, x, y, a);
    assert forall|k: int| 0 <= k < x.shape[last] implies (sum.at)(#[trigger] idx.update(last, k))
        == (a.pair)(Pairwise::Add, (x.at)(idx.update(last, k)), (y.at)(idx.update(last, k))) by {
        assert(within(x.shape, idx.update(last, k)));
    }
    assert(line(sum, last, idx) =~= summed_row(x, y, idx, a));
}

/// A layer of the quantized model adds to its own input: first what the mixing part makes of the
/// normalised input, then what the feed-forward part makes of that sum, normalised. Both norms have
/// the setting of the layer, each its own weights.
#[verifier::rlimit(40)]
pub proof fn layer_adds_to_its_input<E>(w: LayerWeights, x: Rc<Node>, step: Step, env: World<E>)
    requires
        value(&x, env).shape.len() > 0,
        (env.arithmetic.width)(Projection::Down) == value(&x, env).shape.last(),
        (env.arithmetic.width)(Projection::Up) == (env.arithmetic.width)(Projection::Gate),
        norms_keep_length(env.arithmetic),
    ensures
        ({
            let a = env.arithmetic;
            let input = value(&x, env);
            let last = input.shape.len() - 1;
            let eps = match w {
                LayerWeights::FullAttention(p) => p.norm_eps,
                LayerWeights::StateSpace(p) => p.norm_eps,
            };
            let h = ops::rms_norm(Slot::MixerNorm, eps, &x);
            let mixer = match w {
                LayerWeights::FullAttention(p) => value(&p.output(h, step), env),
                LayerWeights::StateSpace(p) => value(&p.output(h, step), env),
            };
            let output = value(&w.output(x, step), env);
            &&& output.shape == input.shape
            &&& output.format == input.format
            &&& forall|idx: Seq<int>| #[trigger]
                within(input.shape, idx) ==> (output.at)(idx) == (a.pair)(
                    Pairwise::Add,
                    (a.pair)(Pairwise::Add, (input.at)(idx), (mixer.at)(idx)),
                    fed_forward(
                        a,
                        SameShape::Silu,
                        (a.rms_norm)(
                            eps,
                            line((env.leaf)(Slot::MlpNorm), 0, seq![0]),
                            summed_row(input, mixer, idx, a),
                        ),
                    )[idx[last]],
                )
        }),
{
    broadcast use meaning::group_value;

    let a = env.arithmetic;
    let input = value(&x, env);
    let last = input.shape.len() - 1;
    let eps = match w {
        LayerWeights::FullAttention(p) => p.norm_eps,
        LayerWeights::StateSpace(p) => p.norm_eps,
    };
    let h = ops::rms_norm(Slot::MixerNorm, eps, &x);
    let mixed = match w {
        LayerWeights::FullAttention(p) => p.output(h, step),
        LayerWeights::StateSpace(p) => p.output(h, step),
    };
    let mixer = value(&mixed, env);
    let sum = ops::pair(Pairwise::Add, &x, &mixed);
    let n = ops::rms_norm(Slot::MlpNorm, eps, &sum);
    let (st, nt) = (value(&sum, env), value(&n, env));
    assert(nt.shape =~= input.shape);
    assert(input.shape.update(last, (a.width)(Projection::Down)) =~= input.shape);
    let weight = line((env.leaf)(Slot::MlpNorm), 0, seq![0]);
    let output = value(&w.output(x, step), env);
    assert forall|idx: Seq<int>| #[trigger] within(input.shape, idx) implies (output.at)(idx) == (
    a.pair)(
        Pairwise::Add,
        (a.pair)(Pairwise::Add, (input.at)(idx), (mixer.at)(idx)),
        fed_forward(
            a,
            SameShape::Silu,
            (a.rms_norm)(eps, weight, summed_row(input, mixer, idx, a)),
        )[idx[last]],
    ) by {
        lemma_fed_forward(SameShape::Silu, n, env, idx);
        let row = summed_row(input, mixer, idx, a);
        assert(line(nt, last, idx) =~= (a.rms_norm)(eps, weight, row)) by {
            assert forall|k: int| 0 <= k < input.shape[last] implies (nt.at)(
                #[trigger] idx.update(last, k),
            ) == (a.rms_norm)(eps, weight, row)[k] by {
                let i = idx.update(last, k);
                assert(within(input.shape, i));
                lemma_summed_row(input, mixer, i, a);
                assert(summed_row(input, mixer, i, a) =~= row) by {
                    assert forall|m: int| 0 <= m < input.shape[last] implies #[trigger] i.update(
                        last,
                        m,
                    ) == idx.update(last, m) by {
                        assert(i.update(last, m) =~= idx.update(last, m));
                    }
                }
            }
        }
    }
}

/// The map gives nothing but zeros.
pub open spec fn gives_nothing<E>(a: Arithmetic<E>, map: Projection) -> bool {
    forall|row: Seq<E>, j: int| (#[trigger] (a.linear)(map, row)[j]) == a.zero
}

/// A layer of the quantized model whose last maps give zeros returns its input: what it computes is
/// all added to its own input, never to anything else.
pub proof fn silent_layer_returns_its_input<E>(
    w: LayerWeights,
    x: Rc<Node>,
    step: Step,
    env: World<E>,
    idx: Seq<int>,
)
    requires
        value(&x, env).shape == seq![
            step.batch as nat,
            step.len as nat,
            (env.arithmetic.width)(Projection::Down),
        ],
        (env.arithmetic.width)(Projection::Output) == (env.arithmetic.width)(Projection::Down),
        (env.arithmetic.width)(Projection::MixerOutput) == (env.arithmetic.width)(Projection::Down),
        (env.arithmetic.width)(Projection::Up) == (env.arithmetic.width)(Projection::Gate),
        norms_keep_length(env.arithmetic),
        forall|e: E|
            #[trigger] (env.arithmetic.pair)(Pairwise::Add, e, env.arithmetic.zero) == e,
        gives_nothing(env.arithmetic, Projection::Output),
        gives_nothing(env.arithmetic, Projection::MixerOutput),
        gives_nothing(env.arithmetic, Projection::Down),
        within(value(&x, env).shape, idx),
    ensures
        value(&w.output(x, step), env).shape == value(&x, env).shape,
        (value(&w.output(x, step), env).at)(idx) == (value(&x, env).at)(idx),
{
    broadcast use meaning::group_value;

    layer_adds_to_its_input(w, x, step, env);
    let input = value(&x, env);
    let a = env.arithmetic;
    let eps = match w {
        LayerWeights::FullAttention(p) => p.norm_eps,
        LayerWeights::StateSpace(p) => p.norm_eps,
    };
    let h = ops::rms_norm(Slot::MixerNorm, eps, &x);
    let mixer = match w {
        LayerWeights::FullAttention(p) => value(&p.output(h, step), env),
        LayerWeights::StateSpace(p) => value(&p.output(h, step), env),
    };
    assert(mixer.shape =~= input.shape);
    assert((mixer.at)(idx) == a.zero);
}

/// The number `e` of the format `from` in the format `to`.
pub open spec fn converted<E>(a: Arithmetic<E>, from: int, to: int, e: E) -> E {
    if from == to {
        e
    } else {
        (a.cast)(to, e)
    }
}

/// What a row is scaled by so that its mean square, with `eps` added, becomes one.
pub open spec fn inverse_root_mean_square<E>(a: Arithmetic<E>, eps: FloatSetting, row: Seq<E>) -> E {
    (a.apply)(
        SameShape::Recip,
        (a.apply)(
            SameShape::Sqrt,
            (a.plus)(
                (a.mean)(Seq::new(row.len(), |k: int| (a.apply)(SameShape::Sqr, row[k]))),
                Scalar::Epsilon(eps),
            ),
        ),
    )
}

/// The norm of a row of the format `f`, with weights of the format `g`: in the widened format it is
/// scaled to a mean square of one, and by one plus each weight.
pub open spec fn dense_norm<E>(
    a: Arithmetic<E>,
    eps: u64,
    weights: Seq<E>,
    g: int,
    row: Seq<E>,
    f: int,
) -> Seq<E> {
    let w = (a.widened)(f);
    let wide = Seq::new(row.len(), |k: int| converted(a, f, w, row[k]));
    Seq::new(
        row.len(),
        |k: int|
            converted(
                a,
                w,
                f,
                (a.pair)(
                    Pairwise::BroadcastMul,
                    (a.pair)(
                        Pairwise::BroadcastMul,
                        wide[k],
                        inverse_root_mean_square(a, FloatSetting::Double(eps), wide),
                    ),
                    (a.plus)(converted(a, g, w, weights[k]), Scalar::One),
                ),
            ),
    )
}

/// Broadcasting a tensor with one number for each of its rows, or with one for each of its columns.
pub proof fn lemma_broadcast_row(d: Seq<nat>)
    requires
        d.len() > 0,
    ensures
        graph::broadcast(d, d.update(d.len() - 1, 1)) == Some(d),
        graph::broadcast(d, seq![d[d.len() - 1]]) == Some(d),
        graph::broadcast(d, d) == Some(d),
{
    let n = d.len() as int;
    let e = d.update(n - 1, 1);
    let w = seq![d[n - 1]];
    assert(forall|k: int| 0 <= k < n ==> graph::aligned(d, n, k) == d[k]);
    assert(forall|k: int| 0 <= k < n ==> graph::aligned(e, n, k) == e[k]);
    assert(forall|k: int| 0 <= k < n - 1 ==> graph::aligned(w, n, k) == 1);
    assert(graph::aligned(w, n, n - 1) == d[n - 1]);
    assert(graph::broadcast(d, e)->0 =~= d);
    assert(graph::broadcast(d, w)->0 =~= d);
    assert(graph::broadcast(d, d)->0 =~= d);
}

/// A row that is scaled to a mean square of one.
pub proof fn mean_square_norm_of_rows<E>(
    x: Rc<Node>,
    eps: FloatSetting,
    env: World<E>,
    idx: Seq<int>,
)
    requires
        value(&x, env).shape.len() > 0,
        within(value(&x, env).shape, idx),
    ensures
        ({
            let t = value(&x, env);
            let last = t.shape.len() - 1;
            let r = value(&crate::blocks::mean_square_norm(&x, eps), env);
            &&& r.shape == t.shape
            &&& r.format == t.format
            &&& (r.at)(idx) == (env.arithmetic.pair)(
                Pairwise::BroadcastMul,
                (t.at)(idx),
                inverse_root_mean_square(env.arithmetic, eps, line(t, last, idx)),
            )
        }),
{
    broadcast use meaning::group_value;

    let a = env.arithmetic;
    let t = value(&x, env);
    let last = t.shape.len() - 1;
    let squares = ops::apply(SameShape::Sqr, &x);
    let st = value(&squares, env);
    let scale = crate::blocks::inverse_root(
        &ops::plus(&ops::mean_keep(&squares), Scalar::Epsilon(eps)),
    );
    let zt = value(&scale, env);
    assert(zt.shape =~= t.shape.update(last, 1));
    lemma_broadcast_row(t.shape);
    meaning::lemma_clipped(t.shape, idx);
    let i = idx.update(last, 0);
    let row = line(t, last, idx);
    assert(line(st, last, i) =~= Seq::new(
        row.len(),
        |k: int| (a.apply)(SameShape::Sqr, row[k]),
    )) by {
        assert forall|k: int| 0 <= k < t.shape[last] implies (st.at)(#[trigger] i.update(last, k))
            == (a.apply)(SameShape::Sqr, row[k]) by {
            assert(i.update(last, k) =~= idx.update(last, k));
            assert(within(t.shape, idx.update(last, k)));
        }
    }
    assert((zt.at)(i) == inverse_root_mean_square(a, eps, row));
}

/// The norm of the dense model, element by element.
pub proof fn dense_norm_of_rows<E>(
    weight: Slot,
    eps: u64,
    x: Rc<Node>,
    env: World<E>,
    idx: Seq<int>,
)
    requires
        weight != Slot::Carry,
        value(&x, env).shape.len() > 0,
        (env.leaf)(weight).shape == seq![value(&x, env).shape.last()],
        within(value(&x, env).shape, idx),
    ensures
        ({
            let t = value(&x, env);
            let last = t.shape.len() - 1;
            let v = (env.leaf)(weight);
            let r = value(&qwen3_5::normed(weight, eps, &x), env);
            &&& r.shape == t.shape
            &&& r.format == t.format
            &&& (r.at)(idx) == dense_norm(
                env.arithmetic,
                eps,
                line(v, 0, seq![0]),
                v.format,
                line(t, last, idx),
                t.format,
            )[idx[last]]
        }),
{
    broadcast use meaning::group_value;

    let a = env.arithmetic;
    let t = value(&x, env);
    let last = t.shape.len() - 1;
    let v = (env.leaf)(weight);
    let w = (a.widened)(t.format);
    let wide = ops::apply(SameShape::Widen, &x);
    let wt = value(&wide, env);
    mean_square_norm_of_rows(wide, FloatSetting::Double(eps), env, idx);
    let unit = crate::blocks::mean_square_norm(&wide, FloatSetting::Double(eps));
    let scales = ops::plus(
        &ops::pair(Pairwise::WidenedFormatOf, &ops::leaf(weight), &x),
        Scalar::One,
    );
    let st = value(&scales, env);
    assert(st.shape == v.shape);
    lemma_broadcast_row(t.shape);
    meaning::lemma_clipped(t.shape, idx);
    let k = idx[last];
    assert(0 <= k < t.shape[last]);
    assert(clipped(v.shape, idx) =~= seq![k]);
    assert(within(v.shape, seq![k]));
    assert(seq![0int].update(0, k) =~= seq![k]);
    assert((st.at)(seq![k]) == (a.plus)(converted(a, v.format, w, (v.at)(seq![k])), Scalar::One));
    let row = line(t, last, idx);
    assert(line(wt, last, idx) =~= Seq::new(
        row.len(),
        |j: int| converted(a, t.format, w, row[j]),
    )) by {
        assert forall|j: int| 0 <= j < t.shape[last] implies (wt.at)(#[trigger] idx.update(last, j))
            == converted(a, t.format, w, row[j]) by {
            assert(within(t.shape, idx.update(last, j)));
        }
    }
    assert(idx.update(last, k) =~= idx);
    assert(row[k] == (t.at)(idx));
}

/// A layer of the dense model adds to its own input: first what the token mixer makes of the
/// normalised input, then what the feed-forward part makes of that sum, normalised. Each norm has
/// its own setting and its own weights.
#[verifier::rlimit(40)]
pub proof fn dense_layer_adds_to_its_input<E>(w: LayerState, x: Rc<Node>, step: Step, env: World<E>)
    requires
        value(&x, env).shape.len() > 0,
        (env.arithmetic.width)(Projection::Down) == value(&x, env).shape.last(),
        (env.arithmetic.width)(Projection::Up) == (env.arithmetic.width)(Projection::Gate),
        (env.leaf)(Slot::MlpNorm).shape == seq![value(&x, env).shape.last()],
    ensures
        ({
            let a = env.arithmetic;
            let input = value(&x, env);
            let last = input.shape.len() - 1;
            let h = qwen3_5::normed(Slot::MixerNorm, w.input_eps, &x);
            let mixer = match w.mixer {
                MixerState::FullAttention(p) => value(&p.output(h, step), env),
                MixerState::LinearAttention { dims, primed } => value(
                    &dims.output(h, step, primed && step.len == 1),
                    env,
                ),
            };
            let weight = (env.leaf)(Slot::MlpNorm);
            let output = value(&w.output(x, step), env);
            &&& output.shape == input.shape
            &&& output.format == input.format
            &&& forall|idx: Seq<int>| #[trigger]
                within(input.shape, idx) ==> (output.at)(idx) == (a.pair)(
                    Pairwise::Add,
                    (a.pair)(Pairwise::Add, (input.at)(idx), (mixer.at)(idx)),
                    fed_forward(
                        a,
                        SameShape::HiddenAct,
                        dense_norm(
                            a,
                            w.post_eps,
                            line(weight, 0, seq![0]),
                            weight.format,
                            summed_row(input, mixer, idx, a),
                            input.format,
                        ),
                    )[idx[last]],
                )
        }),
{
    broadcast use meaning::group_value;

    let a = env.arithmetic;
    let input = value(&x, env);
    let last = input.shape.len() - 1;
    let h = qwen3_5::normed(Slot::MixerNorm, w.input_eps, &x);
    let mixed = match w.mixer {
        MixerState::FullAttention(p) => p.output(h, step),
        MixerState::LinearAttention { dims, primed } => dims.output(
            h,
            step,
            primed && step.len == 1,
        ),
    };
    let mixer = value(&mixed, env);
    let sum = ops::pair(Pairwise::Add, &x, &mixed);
    let n = qwen3_5::normed(Slot::MlpNorm, w.post_eps, &sum);
    let (st, nt) = (value(&sum, env), value(&n, env));
    let weight = (env.leaf)(Slot::MlpNorm);
    let weights = line(weight, 0, seq![0]);
    assert(input.shape.update(last, (a.width)(Projection::Down)) =~= input.shape);
    let output = value(&w.output(x, step), env);
    assert forall|idx: Seq<int>| #[trigger] within(input.shape, idx) implies (output.at)(idx) == (
    a.pair)(
        Pairwise::Add,
        (a.pair)(Pairwise::Add, (input.at)(idx), (mixer.at)(idx)),
        fed_forward(
            a,
            SameShape::HiddenAct,
            dense_norm(
                a,
                w.post_eps,
                weights,
                weight.format,
                summed_row(input, mixer, idx, a),
                input.format,
            ),
        )[idx[last]],
    ) by {
        let row = summed_row(input, mixer, idx, a);
        let made = dense_norm(a, w.post_eps, weights, weight.format, row, input.format);
        dense_norm_of_rows(Slot::MlpNorm, w.post_eps, sum, env, idx);
        assert(nt.shape == input.shape);
        lemma_fed_forward(SameShape::HiddenAct, n, env, idx);
        assert(line(nt, last, idx) =~= made) by {
            assert forall|k: int| 0 <= k < input.shape[last] implies (nt.at)(
                #[trigger] idx.update(last, k),
            ) == made[k] by {
                let i = idx.update(last, k);
                assert(within(input.shape, i));
                dense_norm_of_rows(Slot::MlpNorm, w.post_eps, sum, env, i);
                lemma_summed_row(input, mixer, i, a);
                assert(summed_row(input, mixer, i, a) =~= row) by {
                    assert forall|m: int| 0 <= m < input.shape[last] implies #[trigger] i.update(
                        last,
                        m,
                    ) == idx.update(last, m) by {
                        assert(i.update(last, m) =~= idx.update(last, m));
                    }
                }
            }
        }
    }
}

/// A layer of the dense model whose token mixer and feed-forward part give zeros returns its input:
/// what it computes is all added to its own input, never to anything else.
pub proof fn silent_dense_layer_returns_its_input<E>(
    w: LayerState,
    x: Rc<Node>,
    step: Step,
    env: World<E>,
    idx: Seq<int>,
)
    requires
        value(&x, env).shape == seq![
            step.batch as nat,
            step.len as nat,
            (env.arithmetic.width)(Projection::Down),
        ],
        (env.arithmetic.width)(Projection::Up) == (env.arithmetic.width)(Projection::Gate),
        (env.leaf)(Slot::MlpNorm).shape == seq![(env.arithmetic.width)(Projection::Down)],
        forall|e: E|
            #[trigger] (env.arithmetic.pair)(Pairwise::Add, e, env.arithmetic.zero) == e,
        ({
            let h = qwen3_5::normed(Slot::MixerNorm, w.input_eps, &x);
            let mixer = match w.mixer {
                MixerState::FullAttention(p) => value(&p.output(h, step), env),
                MixerState::LinearAttention { dims, primed } => value(
                    &dims.output(h, step, primed && step.len == 1),
                    env,
                ),
            };
            (mixer.at)(idx) == env.arithmetic.zero
        }),
        gives_nothing(env.arithmetic, Projection::Down),
        within(value(&x, env).shape, idx),
    ensures
        value(&w.output(x, step), env).shape == value(&x, env).shape,
        (value(&w.output(x, step), env).at)(idx) == (value(&x, env).at)(idx),
{
    dense_layer_adds_to_its_input(w, x, step, env);
}

/// What the feed-forward part of the quantized model makes of a row.
pub proof fn feed_forward_of_rows<E>(x: Rc<Node>, env: World<E>, idx: Seq<int>)
    requires
        value(&x, env).shape.len() > 0,
        (env.arithmetic.width)(Projection::Up) == (env.arithmetic.width)(Projection::Gate),
        within(
            value(&x, env).shape.update(
                value(&x, env).shape.len() - 1,
                (env.arithmetic.width)(Projection::Down),
            ),
            idx,
        ),
    ensures
        ({
            let last = value(&x, env).shape.len() - 1;
            let row = line(value(&x, env), last, idx);
            &&& (value(&quantized_qwen3_5::mlp(&x), env).at)(idx) == fed_forward(
                env.arithmetic,
                SameShape::Silu,
                row,
            )[idx[last]]
            &&& (value(&qwen3_5::feed_forward(&x), env).at)(idx) == fed_forward(
                env.arithmetic,
                SameShape::HiddenAct,
                row,
            )[idx[last]]
        }),
{
    lemma_fed_forward(SameShape::Silu, x, env, idx);
    lemma_fed_forward(SameShape::HiddenAct, x, env, idx);
}

/// The scores of the quantized model come from the last position alone: its row, normalised with
/// the setting of the model, through the map to the vocabulary.
pub proof fn scores_come_from_the_last_position<E>(
    pass: ForwardPass,
    layers: Seq<LayerWeights>,
    eps: FloatSetting,
    step: Step,
    env: World<E>,
    i: int,
    token: int,
)
    requires
        pass.of(layers, eps, step),
        step.len >= 1,
        norms_keep_length(env.arithmetic),
        (env.leaf)(Slot::Input).shape.len() == 3,
        (env.leaf)(Slot::Input).shape[1] == step.len,
        0 <= i < (env.leaf)(Slot::Input).shape[0],
        0 <= token < (env.arithmetic.width)(Projection::Head),
    ensures
        ({
            let a = env.arithmetic;
            let x = (env.leaf)(Slot::Input);
            let row = Seq::new(x.shape[2], |k: int| (x.at)(seq![i, step.len - 1, k]));
            let scores = value(&pass.last, env);
            &&& scores.shape == seq![x.shape[0], (a.width)(Projection::Head)]
            &&& (scores.at)(seq![i, token]) == (a.linear)(
                Projection::Head,
                (a.rms_norm)(eps, line((env.leaf)(Slot::FinalNorm), 0, seq![0]), row),
            )[token]
        }),
{
    broadcast use meaning::group_value;

    let a = env.arithmetic;
    let x = (env.leaf)(Slot::Input);
    let last = step.len - 1;
    let row = Seq::new(x.shape[2], |k: int| (x.at)(seq![i, last, k]));
    let weight = line((env.leaf)(Slot::FinalNorm), 0, seq![0]);
    let n = ops::rms_norm(Slot::FinalNorm, eps, &ops::leaf(Slot::Input));
    let nt = value(&n, env);
    assert(nt.shape =~= x.shape);
    let chosen = value(&ops::select(&n, 1, last as usize), env);
    assert(chosen.shape =~= seq![x.shape[0], x.shape[2]]);
    let idx = seq![i, token];
    assert(line(chosen, 1, idx) =~= (a.rms_norm)(eps, weight, row)) by {
        assert forall|k: int| 0 <= k < x.shape[2] implies (chosen.at)(#[trigger] idx.update(1, k))
            == (a.rms_norm)(eps, weight, row)[k] by {
            assert(idx.update(1, k) =~= seq![i, k]);
            assert(within(chosen.shape, seq![i, k]));
            let full = seq![i, last, k];
            assert(seq![i, k].insert(1, last) =~= full);
            assert(within(x.shape, full));
            assert(line(x, 2, full) =~= row) by {
                assert forall|m: int| 0 <= m < x.shape[2] implies #[trigger] full.update(2, m)
                    == seq![i, last, m] by {
                    assert(full.update(2, m) =~= seq![i, last, m]);
                }
            }
        }
    }
    assert(chosen.shape.update(1, (a.width)(Projection::Head)) =~= seq![
        x.shape[0],
        (a.width)(Projection::Head),
    ]);
    assert(within(seq![x.shape[0], (a.width)(Projection::Head)], idx));
}

/// The first formula of a pass embeds each token by itself, and there is a mask exactly where there
/// is more than one position, or none.
pub proof fn pass_begins_with_the_embedding<E>(
    pass: ForwardPass,
    layers: Seq<LayerWeights>,
    eps: FloatSetting,
    step: Step,
    env: World<E>,
    idx: Seq<int>,
)
    requires
        pass.of(layers, eps, step),
        within((env.leaf)(Slot::Input).shape.push(env.arithmetic.embedding), idx),
    ensures
        (value(&pass.hidden, env).at)(idx) == (env.arithmetic.embed)(
            ((env.leaf)(Slot::Input).at)(idx.drop_last()),
        )[idx.last()],
        value(&pass.hidden, env).format == env.arithmetic.model,
        pass.mask is Some <==> step.masked,
        pass.layers@.len() == layers.len(),
{
    broadcast use meaning::group_value;

}

/// The scores of the dense model come from the last position alone: its row, normalised with the
/// setting of the model, through the map to the vocabulary.
#[verifier::rlimit(40)]
pub proof fn dense_scores_come_from_the_last_position<E>(
    len: usize,
    eps: u64,
    env: World<E>,
    i: int,
    token: int,
)
    requires
        len >= 1,
        (env.leaf)(Slot::Input).shape.len() == 3,
        (env.leaf)(Slot::Input).shape[1] == len,
        (env.leaf)(Slot::FinalNorm).shape == seq![(env.leaf)(Slot::Input).shape[2]],
        0 <= i < (env.leaf)(Slot::Input).shape[0],
        0 <= token < (env.arithmetic.width)(Projection::Head),
    ensures
        ({
            let a = env.arithmetic;
            let x = (env.leaf)(Slot::Input);
            let v = (env.leaf)(Slot::FinalNorm);
            let row = Seq::new(x.shape[2], |k: int| (x.at)(seq![i, len - 1, k]));
            let scores = value(&qwen3_5::last_scores(len, eps), env);
            &&& scores.shape == seq![x.shape[0], 1, (a.width)(Projection::Head)]
            &&& (scores.at)(seq![i, 0, token]) == (a.linear)(
                Projection::Head,
                dense_norm(a, eps, line(v, 0, seq![0]), v.format, row, x.format),
            )[token]
        }),
{
    broadcast use meaning::group_value;

    let a = env.arithmetic;
    let x = (env.leaf)(Slot::Input);
    let v = (env.leaf)(Slot::FinalNorm);
    let last = len - 1;
    let row = Seq::new(x.shape[2], |k: int| (x.at)(seq![i, last, k]));
    let made = dense_norm(a, eps, line(v, 0, seq![0]), v.format, row, x.format);
    let n = qwen3_5::normed(Slot::FinalNorm, eps, &ops::leaf(Slot::Input));
    let nt = value(&n, env);
    let chosen = value(&ops::narrow(&n, 1, last as usize, 1), env);
    if x.shape[2] > 0 {
        assert(within(x.shape, seq![i, last, 0]));
        dense_norm_of_rows(Slot::FinalNorm, eps, ops::leaf(Slot::Input), env, seq![i, last, 0]);
    } else {
        lemma_dense_norm_shape(Slot::FinalNorm, eps, ops::leaf(Slot::Input), env);
    }
    assert(nt.shape == x.shape);
    let idx = seq![i, 0, token];
    assert(line(chosen, 2, idx) =~= made) by {
        assert forall|k: int| 0 <= k < x.shape[2] implies (chosen.at)(#[trigger] idx.update(2, k))
            == made[k] by {
            let at = idx.update(2, k);
            assert(at =~= seq![i, 0, k]);
            assert(within(chosen.shape, at));
            let full = seq![i, last, k];
            assert(at.update(1, at[1] + last) =~= full);
            assert(within(x.shape, full));
            dense_norm_of_rows(Slot::FinalNorm, eps, ops::leaf(Slot::Input), env, full);
            assert(line(x, 2, full) =~= row) by {
                assert forall|m: int| 0 <= m < x.shape[2] implies #[trigger] full.update(2, m)
                    == seq![i, last, m] by {
                    assert(full.update(2, m) =~= seq![i, last, m]);
                }
            }
        }
    }
    assert(chosen.shape.update(2, (a.width)(Projection::Head)) =~= seq![
        x.shape[0],
        1,
        (a.width)(Projection::Head),
    ]);
    assert(within(seq![x.shape[0], 1, (a.width)(Projection::Head)], idx));
}

/// The norm of the dense model keeps the shape.
proof fn lemma_dense_norm_shape<E>(weight: Slot, eps: u64, x: Rc<Node>, env: World<E>)
    requires
        weight != Slot::Carry,
        value(&x, env).shape.len() > 0,
        (env.leaf)(weight).shape == seq![value(&x, env).shape.last()],
    ensures
        value(&qwen3_5::normed(weight, eps, &x), env).shape == value(&x, env).shape,
{
    broadcast use meaning::group_value;

    let t = value(&x, env);
    let last = t.shape.len() - 1;
    lemma_broadcast_row(t.shape);
    let wide = ops::apply(SameShape::Widen, &x);
    let scale = crate::blocks::inverse_root(
        &ops::plus(
            &ops::mean_keep(&ops::apply(SameShape::Sqr, &wide)),
            Scalar::Epsilon(FloatSetting::Double(eps)),
        ),
    );
    assert(value(&wide, env).shape == t.shape);
    assert(value(&scale, env).shape =~= t.shape.update(last, 1));
}

/// What a layer of the quantized model leaves behind is what its mixing part leaves of the
/// normalised input: the keys and the values of attention, or the inputs that the convolution read
/// last and the matrices after the last position.
pub proof fn layer_leaves_what_its_mixing_part_leaves(
    w: LayerWeights,
    kept: Kept,
    x: Rc<Node>,
    step: Step,
)
    requires
        w.keeps(kept, x, step),
    ensures
        match w {
            LayerWeights::FullAttention(p) => {
                let h = ops::rms_norm(Slot::MixerNorm, p.norm_eps, &x);
                kept == (Kept::Attention {
                    keys: p.all_keys(h, step),
                    values: p.all_values(h, step),
                })
            },
            LayerWeights::StateSpace(p) => {
                let h = ops::rms_norm(Slot::MixerNorm, p.norm_eps, &x);
                let input = p.conv_input(h, step);
                let pad = (p.conv_kernel_size - 1) as usize;
                kept == (Kept::StateSpace {
                    conv_state: if p.primed && step.len == 1 {
                        ops::narrow(&input, 2, 1, pad)
                    } else {
                        ops::narrow(&input, 2, step.len, pad)
                    },
                    recurrent_state: ops::scan_state(&p.rule(h, step)),
                })
            },
        },
{
}

/// The same for the dense model.
pub proof fn dense_layer_leaves_what_its_mixer_leaves(
    w: LayerState,
    kept: Kept,
    x: Rc<Node>,
    step: Step,
)
    requires
        w.keeps(kept, x, step),
    ensures
        ({
            let h = qwen3_5::normed(Slot::MixerNorm, w.input_eps, &x);
            match w.mixer {
                MixerState::FullAttention(p) => kept == (Kept::Attention {
                    keys: p.all_keys(h, step),
                    values: p.all_values(h, step),
                }),
                MixerState::LinearAttention { dims, primed } => {
                    let goes_on = primed && step.len == 1;
                    kept == (Kept::StateSpace {
                        conv_state: dims.conv_state(h, step, goes_on),
                        recurrent_state: ops::scan_state(&dims.rule(h, step, goes_on)),
                    })
                },
            }
        }),
{
}

/// A pass only marks that a layer of the quantized model has something to go on from, and clearing
/// only takes the mark away.
pub proof fn passes_only_mark_a_layer(w: LayerWeights)
    ensures
        match (w, w.after_pass(), w.cleared()) {
            (
                LayerWeights::FullAttention(p),
                LayerWeights::FullAttention(q),
                LayerWeights::FullAttention(r),
            ) => {
                &&& q.cached
                &&& !r.cached
                &&& q == (crate::attention::AttentionWeights { cached: true, ..p })
                &&& r == (crate::attention::AttentionWeights { cached: false, ..p })
            },
            (
                LayerWeights::StateSpace(p),
                LayerWeights::StateSpace(q),
                LayerWeights::StateSpace(r),
            ) => {
                &&& q.primed
                &&& !r.primed
                &&& q == (crate::state_space::StateSpaceWeights { primed: true, ..p })
                &&& r == (crate::state_space::StateSpaceWeights { primed: false, ..p })
            },
            _ => false,
        },
{
}

/// A pass only marks that a layer of the dense model has something to go on from, and clearing only
/// takes the mark away.
pub proof fn passes_only_mark_a_dense_layer(w: LayerState)
    ensures
        w.after_pass().input_eps == w.input_eps,
        w.after_pass().post_eps == w.post_eps,
        w.cleared().input_eps == w.input_eps,
        w.cleared().post_eps == w.post_eps,
        match (w.mixer, w.after_pass().mixer, w.cleared().mixer) {
            (
                MixerState::FullAttention(p),
                MixerState::FullAttention(q),
                MixerState::FullAttention(r),
            ) => {
                &&& q == (qwen3_5::AttentionState { cached: true, ..p })
                &&& r == (qwen3_5::AttentionState { cached: false, ..p })
            },
            (
                MixerState::LinearAttention { dims: p, .. },
                MixerState::LinearAttention { dims: q, primed: yes },
                MixerState::LinearAttention { dims: r, primed: no },
            ) => p == q && p == r && yes && !no,
            _ => false,
        },
{
}

/// A pass over several positions hides later ones, in either model; one over a single position has
/// nothing to hide. The sizes of a pass are those that were asked for.
pub proof fn several_positions_need_a_mask(batch: usize, len: usize, offset: usize)
    ensures
        ({
            let (q, d) = (
                quantized_qwen3_5::step_of(batch, len, offset),
                qwen3_5::step_of(batch, len, offset),
            );
            &&& len > 1 ==> q.masked && d.masked
            &&& len == 1 ==> !q.masked && !d.masked
            &&& q.batch == batch && q.len == len && q.offset == offset
            &&& d.batch == batch && d.len == len && d.offset == offset
        }),
{
}

/// Each layer of a pass of the quantized model is the layer of its number, applied to what stands
/// in the input slot; the mask is for as many positions as the pass has.
pub proof fn pass_goes_through_the_layers(
    pass: ForwardPass,
    layers: Seq<LayerWeights>,
    eps: FloatSetting,
    step: Step,
    i: int,
)
    requires
        pass.of(layers, eps, step),
        0 <= i < layers.len(),
    ensures
        pass.layers@[i].output == layers[i].output(ops::leaf(Slot::Input), step),
        layers[i].keeps(pass.layers@[i].kept, ops::leaf(Slot::Input), step),
        step.masked ==> pass.mask == Some(quantized_qwen3_5::causal_mask(step.len)),
{
}

/// Each layer of a pass of the dense model is the layer of its number, applied to what stands in
/// the input slot. The first formula embeds each token by itself, and the mask is for the positions
/// of the pass and those before it.
pub proof fn dense_pass_goes_through_the_layers<E>(
    pass: ForwardPass,
    states: Seq<LayerState>,
    step: Step,
    env: World<E>,
    i: int,
    idx: Seq<int>,
)
    requires
        qwen3_5::is_pass(pass, states, step),
        0 <= i < states.len(),
        within((env.leaf)(Slot::Input).shape.push(env.arithmetic.embedding), idx),
    ensures
        pass.layers@.len() == states.len(),
        pass.layers@[i].output == states[i].output(ops::leaf(Slot::Input), step),
        states[i].keeps(pass.layers@[i].kept, ops::leaf(Slot::Input), step),
        (value(&pass.hidden, env).at)(idx) == (env.arithmetic.embed)(
            ((env.leaf)(Slot::Input).at)(idx.drop_last()),
        )[idx.last()],
        step.masked ==> pass.mask == Some(
            qwen3_5::prepare_causal_attention_mask(step.batch, step.len, step.offset),
        ),
        !step.masked ==> pass.mask is None,
{
    broadcast use meaning::group_value;

}

}
