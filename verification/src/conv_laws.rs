//! The depthwise convolution fed in pieces.
use crate::graph;
use crate::graph::{Dims, Node, Pairwise, SameShape, Slot};
use crate::meaning;
use crate::meaning::{
    broadcasted, collected, formatted, joined, laid, mapped, narrowed, summed, unsqueezed, value,
    within, zeros, Arithmetic, Tensor, World,
};
use crate::ops::{apply, collect, conv, leaf};
use crate::state_space;
use crate::state_space::{apply_depthwise_conv_silu, last_inputs, padded};
use std::rc::Rc;
use vstd::prelude::*;

verus! {

/// The activated convolution of its inputs, as the dense or the quantized model computes it.
pub open spec fn activated(dense: bool, input: Rc<Node>, len: usize, kernel: usize) -> Rc<Node> {
    if dense {
        apply(SameShape::Silu, &conv(&input))
    } else {
        apply_depthwise_conv_silu(&input, len, kernel)
    }
}

/// The dimensions of a convolution.
#[derive(Debug, Clone, Copy, PartialEq, Eq, Structural)]
pub struct ConvDims {
    pub batch: usize,
    pub channels: usize,
    pub kernel: usize,
}

/// One pass of the convolution over the columns `x`: its outputs, and the state that it leaves.
pub open spec fn called<E>(
    dense: bool,
    env: World<E>,
    dims: ConvDims,
    x: Tensor<E>,
    state: Option<Tensor<E>>,
    len: usize,
) -> (Tensor<E>, Tensor<E>) {
    let pad = (dims.kernel - 1) as usize;
    let inner = match state {
        Some(s) => env.with(Slot::Input, x).with(Slot::ConvState, s),
        None => env.with(Slot::Input, x),
    };
    let input = padded(&leaf(Slot::Input), state is Some, dims.batch, dims.channels, pad);
    (
        value(&activated(dense, input, len, dims.kernel), inner),
        value(&last_inputs(&input, state is Some, len, pad), inner),
    )
}

/// The first `n` columns of `x`, the first `m` of them in one pass and each of the others in a pass
/// of its own.
pub open spec fn fed<E>(
    dense: bool,
    env: World<E>,
    dims: ConvDims,
    x: Tensor<E>,
    m: usize,
    n: usize,
) -> (Tensor<E>, Tensor<E>)
    decreases n,
{
    if n <= m {
        called(dense, env, dims, narrowed(x, 2, 0, m as nat), None, m)
    } else {
        let (outputs, state) = fed(dense, env, dims, x, m, (n - 1) as usize);
        let (output, next) = called(dense, env, dims, narrowed(x, 2, n - 1, 1), Some(state), 1);
        (joined(outputs, output, 2), next)
    }
}

/// The dimensions of the columns, of the kernels and of the windows belong together.
pub open spec fn fits<E>(dense: bool, env: World<E>, dims: ConvDims, x: Tensor<E>) -> bool {
    &&& dims.kernel >= 1
    &&& x.shape.len() == 3
    &&& x.shape[0] == dims.batch
    &&& x.shape[1] == dims.channels
    &&& if dense {
        env.arithmetic.kernel == dims.kernel
    } else {
        (env.leaf)(Slot::ConvWeight).shape == seq![dims.channels as nat, dims.kernel as nat]
    }
}

/// The columns behind as many zeros as a window has before its last column.
pub open spec fn behind_zeros<E>(env: World<E>, dims: ConvDims, x: Tensor<E>) -> Tensor<E> {
    joined(
        zeros(
            Dims::Three(dims.batch, dims.channels, (dims.kernel - 1) as usize),
            x.format,
            env.arithmetic,
        ),
        x,
        2,
    )
}

/// What the convolution with the weights `w` makes of the window at column `t`.
pub open spec fn window<E>(
    z: Tensor<E>,
    w: Tensor<E>,
    kernel: nat,
    t: int,
    a: Arithmetic<E>,
) -> Tensor<
    E,
> {
    unsqueezed(
        summed(
            broadcasted(
                narrowed(z, 2, t, kernel),
                unsqueezed(formatted(w, z.format, a), 0),
                |p: E, q: E| (a.pair)(Pairwise::BroadcastMul, p, q),
            ),
            2,
            a,
        ),
        2,
    )
}

/// The windows of a part are those of the whole.
proof fn lemma_window_of_part<E>(
    z: Tensor<E>,
    w: Tensor<E>,
    kernel: nat,
    off: int,
    len: nat,
    t: int,
    a: Arithmetic<E>,
)
    requires
        z.shape.len() == 3,
        0 <= off,
        0 <= t,
        t + kernel <= len,
    ensures
        window(narrowed(z, 2, off, len), w, kernel, t, a) == window(z, w, kernel, off + t, a),
{
    meaning::lemma_part_of_part(z, 2, off, len, t, kernel);
}

/// A window gives one number for each channel.
pub proof fn lemma_window_shape<E>(
    z: Tensor<E>,
    w: Tensor<E>,
    b: nat,
    c: nat,
    kernel: nat,
    t: int,
    a: Arithmetic<E>,
)
    requires
        z.shape.len() == 3,
        z.shape[0] == b,
        z.shape[1] == c,
        w.shape == seq![c, kernel],
    ensures
        window(z, w, kernel, t, a).shape == seq![b, c, 1],
        window(z, w, kernel, t, a).format == z.format,
{
    let d = seq![b, c, kernel];
    let e = seq![1, c, kernel];
    assert(narrowed(z, 2, t, kernel).shape =~= d);
    assert(unsqueezed(formatted(w, z.format, a), 0).shape =~= e);
    assert(graph::broadcast(d, e)->0 =~= d) by {
        assert(forall|i: int| 0 <= i < 3 ==> graph::aligned(d, 3, i) == d[i]);
        assert(forall|i: int| 0 <= i < 3 ==> graph::aligned(e, 3, i) == e[i]);
    }
    assert(d.remove(2) =~= seq![b, c]);
    assert(seq![b, c].insert(2, 1) =~= seq![b, c, 1]);
}

/// What the item of the quantized convolution computes.
proof fn lemma_item<E>(input: Rc<Node>, kernel: usize, env: World<E>)
    ensures
        value(&state_space::convolved(&input, kernel), env) == window(
            value(&input, env),
            value(&leaf(Slot::ConvWeight), env),
            kernel as nat,
            env.step,
            env.arithmetic,
        ),
{
    broadcast use meaning::group_value;

}

/// The outputs of the convolution of `z` at `len` positions, before the activation.
pub open spec fn outputs<E>(
    dense: bool,
    z: Tensor<E>,
    w: Tensor<E>,
    kernel: nat,
    len: nat,
    a: Arithmetic<E>,
) -> Tensor<E> {
    if dense {
        meaning::convolved(z, a)
    } else {
        laid(Seq::new(len, |t: int| window(z, w, kernel, t, a)), 2)
    }
}

/// What the activated convolution computes.
pub proof fn lemma_activated<E>(dense: bool, input: Rc<Node>, len: usize, kernel: usize, env: World<E>)
    requires
        graph::closed(&input),
    ensures
        value(&activated(dense, input, len, kernel), env) == mapped(
            outputs(
                dense,
                value(&input, env),
                (env.leaf)(Slot::ConvWeight),
                kernel as nat,
                len as nat,
                env.arithmetic,
            ),
            |e: E| (env.arithmetic.apply)(SameShape::Silu, e),
        ),
{
    broadcast use meaning::group_value;

    if !dense {
        let (z, w) = (value(&input, env), (env.leaf)(Slot::ConvWeight));
        let item = state_space::convolved(&input, kernel);
        meaning::lemma_collected(item, len as nat, env);
        let x = collected(item, len as nat, env);
        let y = Seq::new(len as nat, |t: int| window(z, w, kernel as nat, t, env.arithmetic));
        assert forall|t: int| 0 <= t < len implies #[trigger] x[t] == y[t] by {
            let inner = env.in_step(t, arbitrary());
            meaning::lemma_closed(&input, env, t, arbitrary());
            lemma_item(input, kernel, inner);
        }
        assert(x =~= y);
        assert(value(&collect(len, 2, &item), env) == laid(x, 2));
    }
}

/// The outputs at the positions of a part are those of the whole.
pub proof fn lemma_outputs_of_part<E>(
    dense: bool,
    z: Tensor<E>,
    w: Tensor<E>,
    b: nat,
    c: nat,
    kernel: nat,
    n: nat,
    off: int,
    len: nat,
    a: Arithmetic<E>,
)
    requires
        kernel >= 1,
        z.shape == seq![b, c, (n + kernel - 1) as nat],
        0 <= off,
        0 < len,
        off + len <= n,
        if dense {
            a.kernel == kernel
        } else {
            w.shape == seq![c, kernel]
        },
    ensures
        outputs(dense, narrowed(z, 2, off, (len + kernel - 1) as nat), w, kernel, len, a)
            == narrowed(outputs(dense, z, w, kernel, n, a), 2, off, len),
        outputs(dense, z, w, kernel, n, a).shape == seq![b, c, n],
        outputs(dense, z, w, kernel, n, a).format == z.format,
{
    let wide = (len + kernel - 1) as nat;
    let part = narrowed(z, 2, off, wide);
    let l = outputs(dense, part, w, kernel, len, a);
    let whole = outputs(dense, z, w, kernel, n, a);
    let r = narrowed(whole, 2, off, len);
    if dense {
        assert(whole.shape =~= seq![b, c, n]);
        assert(l.shape =~= r.shape);
        assert forall|idx: Seq<int>| #[trigger] within(l.shape, idx) implies (l.at)(idx) == (r.at)(
            idx,
        ) by {
            let there = idx.update(2, idx[2] + off);
            assert(within(whole.shape, there));
            let x = Seq::new(a.kernel, |k: int| (part.at)(idx.update(2, idx[2] + k)));
            let y = Seq::new(a.kernel, |k: int| (z.at)(there.update(2, there[2] + k)));
            assert forall|k: int| 0 <= k < a.kernel implies #[trigger] x[k] == y[k] by {
                let i = idx.update(2, idx[2] + k);
                assert(within(part.shape, i));
                assert(i.update(2, i[2] + off) =~= there.update(2, there[2] + k));
            }
            assert(x =~= y);
        }
    } else {
        let x = Seq::new(len, |t: int| window(part, w, kernel, t, a));
        let y = Seq::new(n, |t: int| window(z, w, kernel, t, a));
        assert forall|t: int| 0 <= t < len implies #[trigger] x[t] == y[off + t] by {
            lemma_window_of_part(z, w, kernel, off, wide, t, a);
        }
        lemma_window_shape(z, w, b, c, kernel, 0, a);
        lemma_window_shape(part, w, b, c, kernel, 0, a);
        assert(x[0].shape == seq![b, c, 1]);
        assert(y[0].shape == seq![b, c, 1]);
        assert(n * 1 == n && len * 1 == len);
        assert(whole.shape =~= seq![b, c, n]);
        assert(l.shape =~= r.shape);
        assert forall|idx: Seq<int>| #[trigger] within(l.shape, idx) implies (l.at)(idx) == (r.at)(
            idx,
        ) by {
            let there = idx.update(2, idx[2] + off);
            assert(within(whole.shape, there));
            assert(x[idx[2]] == y[off + idx[2]]);
            assert(idx.update(2, 0) =~= there.update(2, 0));
        }
    }
    meaning::lemma_equal(l, r);
}

/// Tensors in front of one another, one of them in parts.
pub proof fn lemma_joined_parts<E>(z: Tensor<E>, off: int, m: nat, n: nat)
    requires
        z.shape.len() == 3,
        0 <= off,
        off + m + n <= z.shape[2],
    ensures
        joined(narrowed(z, 2, off, m), narrowed(z, 2, off + m, n), 2) == narrowed(
            z,
            2,
            off,
            m + n,
        ),
{
    let (x, y) = (narrowed(z, 2, off, m), narrowed(z, 2, off + m, n));
    let l = joined(x, y, 2);
    let r = narrowed(z, 2, off, m + n);
    assert(l.shape =~= r.shape);
    assert forall|idx: Seq<int>| #[trigger] within(l.shape, idx) implies (l.at)(idx) == (r.at)(
        idx,
    ) by {
        if idx[2] < m {
            assert(within(x.shape, idx));
        } else {
            let i = idx.update(2, idx[2] - m);
            assert(within(y.shape, i));
            assert(i.update(2, i[2] + (off + m)) =~= idx.update(2, idx[2] + off));
        }
    }
    meaning::lemma_equal(l, r);
}

/// The zeros and the first columns are the first part of all columns behind zeros; the columns
/// themselves are the parts behind the zeros.
pub proof fn lemma_behind_zeros<E>(
    env: World<E>,
    dims: ConvDims,
    x: Tensor<E>,
    n: nat,
    t: int,
    len: nat,
)
    requires
        dims.kernel >= 1,
        x.shape.len() == 3,
        x.shape[0] == dims.batch,
        x.shape[1] == dims.channels,
        n <= x.shape[2],
        0 <= t,
        t + len <= x.shape[2],
    ensures
        behind_zeros(env, dims, x).shape == seq![
            x.shape[0],
            x.shape[1],
            (x.shape[2] + dims.kernel - 1) as nat,
        ],
        behind_zeros(env, dims, x).format == x.format,
        behind_zeros(env, dims, narrowed(x, 2, 0, n)) == narrowed(
            behind_zeros(env, dims, x),
            2,
            0,
            (n + dims.kernel - 1) as nat,
        ),
        narrowed(x, 2, t, len) == narrowed(
            behind_zeros(env, dims, x),
            2,
            t + dims.kernel - 1,
            len,
        ),
{
    let pad = dims.kernel - 1;
    let z = behind_zeros(env, dims, x);
    assert(z.shape =~= seq![x.shape[0], x.shape[1], (x.shape[2] + pad) as nat]);
    let l = behind_zeros(env, dims, narrowed(x, 2, 0, n));
    let r = narrowed(z, 2, 0, (n + pad) as nat);
    assert(l.shape =~= r.shape);
    assert forall|idx: Seq<int>| #[trigger] within(l.shape, idx) implies (l.at)(idx) == (r.at)(
        idx,
    ) by {
        assert(idx.update(2, idx[2] + 0) =~= idx);
        assert(within(z.shape, idx));
        if idx[2] >= pad {
            let i = idx.update(2, idx[2] - pad);
            assert(within(x.shape.update(2, n), i));
            assert(i.update(2, i[2] + 0) =~= i);
        }
    }
    meaning::lemma_equal(l, r);
    let p = narrowed(x, 2, t, len);
    let q = narrowed(z, 2, t + pad, len);
    assert(p.shape =~= q.shape);
    assert forall|idx: Seq<int>| #[trigger] within(p.shape, idx) implies (p.at)(idx) == (q.at)(
        idx,
    ) by {
        let there = idx.update(2, idx[2] + (t + pad));
        assert(within(z.shape, there));
        assert(there.update(2, there[2] - pad) =~= idx.update(2, idx[2] + t));
    }
    meaning::lemma_equal(p, q);
}

/// The activated outputs over all columns of `x`.
pub open spec fn all_outputs<E>(
    dense: bool,
    env: World<E>,
    dims: ConvDims,
    x: Tensor<E>,
) -> Tensor<E> {
    let a = env.arithmetic;
    mapped(
        outputs(
            dense,
            behind_zeros(env, dims, x),
            (env.leaf)(Slot::ConvWeight),
            dims.kernel as nat,
            x.shape[2],
            a,
        ),
        |e: E| (a.apply)(SameShape::Silu, e),
    )
}

/// The outputs over a part of the columns behind zeros.
pub proof fn lemma_part_of_outputs<E>(
    dense: bool,
    env: World<E>,
    dims: ConvDims,
    x: Tensor<E>,
    input: Rc<Node>,
    inner: World<E>,
    off: int,
    len: usize,
)
    requires
        fits(dense, env, dims, x),
        graph::closed(&input),
        inner.arithmetic == env.arithmetic,
        (inner.leaf)(Slot::ConvWeight) == (env.leaf)(Slot::ConvWeight),
        0 <= off,
        0 < len,
        off + len <= x.shape[2],
        value(&input, inner) == narrowed(
            behind_zeros(env, dims, x),
            2,
            off,
            (len + dims.kernel - 1) as nat,
        ),
    ensures
        value(&activated(dense, input, len, dims.kernel), inner) == narrowed(
            all_outputs(dense, env, dims, x),
            2,
            off,
            len as nat,
        ),
{
    let a = env.arithmetic;
    let z = behind_zeros(env, dims, x);
    let w = (env.leaf)(Slot::ConvWeight);
    let f = |e: E| (a.apply)(SameShape::Silu, e);
    let (k, n) = (dims.kernel as nat, x.shape[2]);
    lemma_behind_zeros(env, dims, x, 0, 0, 0);
    lemma_activated(dense, input, len, dims.kernel, inner);
    lemma_outputs_of_part(
        dense,
        z,
        w,
        x.shape[0],
        x.shape[1],
        k,
        n,
        off,
        len as nat,
        a,
    );
    meaning::lemma_mapped_part(outputs(dense, z, w, k, n, a), 2, off, len as nat, f);
}

/// A pass over the first columns.
proof fn lemma_called_first<E>(dense: bool, env: World<E>, dims: ConvDims, x: Tensor<E>, n: usize)
    requires
        fits(dense, env, dims, x),
        0 < n <= x.shape[2],
    ensures
        called(dense, env, dims, narrowed(x, 2, 0, n as nat), None, n) == (
            narrowed(all_outputs(dense, env, dims, x), 2, 0, n as nat),
            narrowed(behind_zeros(env, dims, x), 2, n as int, (dims.kernel - 1) as nat),
        ),
{
    broadcast use {meaning::group_value, graph::group_closed};

    let pad = (dims.kernel - 1) as usize;
    let first = narrowed(x, 2, 0, n as nat);
    let inner = env.with(Slot::Input, first);
    let input = padded(&leaf(Slot::Input), false, dims.batch, dims.channels, pad);
    let z = behind_zeros(env, dims, x);
    lemma_behind_zeros(env, dims, x, n as nat, 0, 0);
    assert(value(&input, inner) == behind_zeros(env, dims, first));
    lemma_part_of_outputs(dense, env, dims, x, input, inner, 0, n);
    meaning::lemma_part_of_part(z, 2, 0, (n + pad) as nat, n as int, pad as nat);
}

/// A pass over one more column.
proof fn lemma_called_next<E>(dense: bool, env: World<E>, dims: ConvDims, x: Tensor<E>, n: usize)
    requires
        fits(dense, env, dims, x),
        n < x.shape[2],
    ensures
        called(
            dense,
            env,
            dims,
            narrowed(x, 2, n as int, 1),
            Some(narrowed(behind_zeros(env, dims, x), 2, n as int, (dims.kernel - 1) as nat)),
            1,
        ) == (
            narrowed(all_outputs(dense, env, dims, x), 2, n as int, 1),
            narrowed(behind_zeros(env, dims, x), 2, n + 1, (dims.kernel - 1) as nat),
        ),
{
    broadcast use {meaning::group_value, graph::group_closed};

    let pad = (dims.kernel - 1) as usize;
    let z = behind_zeros(env, dims, x);
    let column = narrowed(x, 2, n as int, 1);
    let state = narrowed(z, 2, n as int, pad as nat);
    let inner = env.with(Slot::Input, column).with(Slot::ConvState, state);
    let input = padded(&leaf(Slot::Input), true, dims.batch, dims.channels, pad);
    lemma_behind_zeros(env, dims, x, 0, n as int, 1);
    lemma_joined_parts(z, n as int, pad as nat, 1);
    assert(value(&input, inner) == joined(state, column, 2));
    lemma_part_of_outputs(dense, env, dims, x, input, inner, n as int, 1);
    meaning::lemma_part_of_part(z, 2, n as int, pad as nat + 1, 1, pad as nat);
}

/// The outputs and the state after columns that were fed in pieces.
proof fn lemma_fed<E>(dense: bool, env: World<E>, dims: ConvDims, x: Tensor<E>, m: usize, n: usize)
    requires
        fits(dense, env, dims, x),
        0 < m <= n <= x.shape[2],
    ensures
        fed(dense, env, dims, x, m, n) == (
            narrowed(all_outputs(dense, env, dims, x), 2, 0, n as nat),
            narrowed(behind_zeros(env, dims, x), 2, n as int, (dims.kernel - 1) as nat),
        ),
    decreases n,
{
    if n == m {
        lemma_called_first(dense, env, dims, x, m);
    } else {
        let j = (n - 1) as usize;
        lemma_fed(dense, env, dims, x, m, j);
        lemma_called_next(dense, env, dims, x, j);
        let all = all_outputs(dense, env, dims, x);
        assert(all.shape.len() == 3 && n <= all.shape[2]) by {
            let (z, w) = (behind_zeros(env, dims, x), (env.leaf)(Slot::ConvWeight));
            lemma_behind_zeros(env, dims, x, 0, 0, 0);
            lemma_outputs_of_part(
                dense,
                z,
                w,
                x.shape[0],
                x.shape[1],
                dims.kernel as nat,
                x.shape[2],
                0,
                1,
                env.arithmetic,
            );
        }
        lemma_joined_parts(all, 0, j as nat, 1);
    }
}

/// The convolution can be fed in pieces: the first columns in one pass, each further one in a pass
/// of its own that continues from the state. The outputs, one piece behind the other, are those of
/// one pass over all columns, and so is the state that is left.
pub proof fn convolution_in_pieces<E>(
    dense: bool,
    env: World<E>,
    dims: ConvDims,
    x: Tensor<E>,
    m: usize,
    n: usize,
)
    requires
        fits(dense, env, dims, x),
        0 < m <= n <= x.shape[2],
    ensures
        fed(dense, env, dims, x, m, n) == called(
            dense,
            env,
            dims,
            narrowed(x, 2, 0, n as nat),
            None,
            n,
        ),
{
    lemma_fed(dense, env, dims, x, m, n);
    lemma_called_first(dense, env, dims, x, n);
}

/// The state that is left holds the last columns, one fewer than a window has, with zeros in front
/// where there were not as many.
pub proof fn convolution_keeps_last_columns<E>(
    dense: bool,
    env: World<E>,
    dims: ConvDims,
    x: Tensor<E>,
    m: usize,
    n: usize,
    idx: Seq<int>,
)
    requires
        fits(dense, env, dims, x),
        0 < m <= n <= x.shape[2],
        within(seq![x.shape[0], x.shape[1], (dims.kernel - 1) as nat], idx),
    ensures
        fed(dense, env, dims, x, m, n).1.shape == seq![
            x.shape[0],
            x.shape[1],
            (dims.kernel - 1) as nat,
        ],
        (fed(dense, env, dims, x, m, n).1.at)(idx) == (if n + idx[2] < dims.kernel - 1 {
            env.arithmetic.zero
        } else {
            (x.at)(idx.update(2, n + idx[2] - (dims.kernel - 1)))
        }),
{
    lemma_fed(dense, env, dims, x, m, n);
    lemma_behind_zeros(env, dims, x, 0, 0, 0);
    let pad = dims.kernel - 1;
    let z = behind_zeros(env, dims, x);
    let state = narrowed(z, 2, n as int, pad as nat);
    assert(state.shape =~= seq![x.shape[0], x.shape[1], pad as nat]);
    let there = idx.update(2, idx[2] + n);
    assert(within(z.shape, there));
    if there[2] >= pad {
        assert(there.update(2, there[2] - pad) =~= idx.update(2, n + idx[2] - pad));
    } else {
        assert(within(seq![x.shape[0], x.shape[1], pad as nat], there));
    }
}

}
