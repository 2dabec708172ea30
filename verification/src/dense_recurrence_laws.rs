//! Recurrent layers of the dense model that continue from their states.
use crate::blocks::{mean_square_norm, repeat_interleave, softplus, Heads};
use crate::cache_laws;
use crate::cache_laws::{first_step, is_piece, next_step, same_model, takes, whole_step};
use crate::causal_laws;
use crate::causal_laws::in_format;
use crate::conv_laws;
use crate::conv_laws::{all_outputs, behind_zeros, ConvDims};
use crate::delta::answers;
use crate::delta_laws;
use crate::delta_net::{rms_norm_gated, split, DeltaNetDims};
use crate::graph;
use crate::graph::{Dims, FloatSetting, Node, Pairwise, Projection, SameShape, Scalar, Slot};
use crate::meaning;
use crate::meaning::{
    broadcasted, clipped, expanded, flattened, formatted, joined, line, mapped, narrowed, offset,
    place, reshaped, transposed, unsqueezed, value, within, Arithmetic, Tensor, World,
};
use crate::ops;
use crate::ops::{apply, leaf, linear, pair, reshape, scan_state};
use crate::pass::Step;
use crate::recurrence_laws;
use crate::recurrence_laws::row_scale;
use crate::shapes;
use crate::value_shapes::matches_shapes;
use std::rc::Rc;
use vstd::prelude::*;

verus! {

/// A row of the gated norm, from a row of answers of the format `f`, one of gates of the format `g`,
/// and the weights, of the format `v`.
pub open spec fn gated_row<E>(
    x: Seq<E>,
    f: int,
    gate: Seq<E>,
    g: int,
    w: Seq<E>,
    v: int,
    eps: FloatSetting,
    a: Arithmetic<E>,
) -> Seq<E> {
    let s = x.map_values(|e: E| in_format(e, f, a.single, a));
    let scale = row_scale(s, eps, a);
    Seq::new(
        x.len(),
        |j: int|
            {
                let scaled = (a.pair)(Pairwise::BroadcastMul, s[j], scale);
                let weight = in_format(w[j], v, a.single, a);
                let shown = (a.apply)(SameShape::Silu, in_format(gate[j], g, a.single, a));
                (a.pair)(
                    Pairwise::BroadcastMul,
                    in_format((a.pair)(Pairwise::BroadcastMul, scaled, weight), a.single, f, a),
                    in_format(shown, a.single, f, a),
                )
            },
    )
}

/// What the gated norm of rows computes.
proof fn lemma_gated_row<E>(
    x: Rc<Node>,
    gate: Rc<Node>,
    eps: u64,
    env: World<E>,
    n: nat,
    w: nat,
    r: int,
    j: int,
)
    requires
        value(&x, env).shape == seq![n, w],
        value(&gate, env).shape == seq![n, w],
        (env.leaf)(Slot::GatedNorm).shape == seq![w],
        0 <= r < n,
        0 <= j < w,
    ensures
        ({
            let u = value(&rms_norm_gated(&x, &gate, eps), env);
            let (t, g) = (value(&x, env), value(&gate, env));
            let weight = (env.leaf)(Slot::GatedNorm);
            &&& u.shape == seq![n, w]
            &&& u.format == t.format
            &&& (u.at)(seq![r, j]) == gated_row(
                line(t, 1, seq![r, 0]),
                t.format,
                line(g, 1, seq![r, 0]),
                g.format,
                line(weight, 0, seq![0]),
                weight.format,
                FloatSetting::Double(eps),
                env.arithmetic,
            )[j]
        }),
{
    broadcast use meaning::group_value;

    let a = env.arithmetic;
    let (t, g) = (value(&x, env), value(&gate, env));
    let weight = (env.leaf)(Slot::GatedNorm);
    let wide = apply(SameShape::Single, &x);
    let s = formatted(t, a.single, a);
    recurrence_laws::lemma_norm_row(wide, FloatSetting::Double(eps), env, n, w, r, j);
    let normed = value(&mean_square_norm(&wide, FloatSetting::Double(eps)), env);
    let mul = |p: E, q: E| (a.pair)(Pairwise::BroadcastMul, p, q);
    let silu = |e: E| (a.apply)(SameShape::Silu, e);
    let shown = formatted(mapped(formatted(g, a.single, a), silu), t.format, a);
    let wide_weight = formatted(weight, a.single, a);
    recurrence_laws::lemma_broadcast2(n, w);
    let weighted = formatted(broadcasted(normed, wide_weight, mul), t.format, a);
    assert(value(&rms_norm_gated(&x, &gate, eps), env) == broadcasted(weighted, shown, mul));
    let idx = seq![r, j];
    let first = seq![r, 0];
    assert(within(t.shape, idx));
    meaning::lemma_clipped(t.shape, idx);
    assert(clipped(weight.shape, idx) =~= seq![j]);
    assert(within(weight.shape, seq![j]));
    let w_row = line(weight, 0, seq![0]);
    assert(seq![0int].update(0, j) =~= seq![j]);
    assert(w_row[j] == (weight.at)(seq![j]));
    let row = line(t, 1, first);
    let gate_row = line(g, 1, first);
    assert(first.update(1, j) =~= idx);
    let cast = |e: E| in_format(e, t.format, a.single, a);
    assert(line(s, 1, first) =~= row.map_values(cast)) by {
        assert forall|k: int| 0 <= k < w implies #[trigger] line(s, 1, first)[k]
            == row.map_values(cast)[k] by {
            assert(within(t.shape, first.update(1, k)));
        }
    }
    assert((s.at)(idx) == row.map_values(cast)[j]);
    assert(gate_row[j] == (g.at)(idx));
}

/// Answers and gates as rows, through the gated norm, and the heads of a position joined again.
pub open spec fn joined_rows(
    x: &Rc<Node>,
    gate: &Rc<Node>,
    eps: u64,
    b: usize,
    s: usize,
    vw: usize,
) -> Rc<Node> {
    reshape(
        &rms_norm_gated(
            &reshape(x, Dims::HoleOne(vw)),
            &reshape(gate, Dims::HoleOne(vw)),
            eps,
        ),
        Dims::TwoHole(b, s),
    )
}

/// What [`joined_rows`] computes: each head of each position from its own row of answers and gates.
pub proof fn lemma_joined_rows<E>(
    x: Rc<Node>,
    gate: Rc<Node>,
    eps: u64,
    env: World<E>,
    b: usize,
    s: usize,
    h: nat,
    vw: usize,
    idx: Seq<int>,
)
    requires
        vw > 0,
        b > 0,
        s > 0,
        value(&x, env).shape == seq![b as nat, s as nat, h, vw as nat],
        value(&gate, env).shape == seq![b as nat, s as nat, h, vw as nat],
        (env.leaf)(Slot::GatedNorm).shape == seq![vw as nat],
        within(seq![b as nat, s as nat, h * vw as nat], idx),
    ensures
        ({
            let u = value(&joined_rows(&x, &gate, eps, b, s, vw), env);
            let (t, g) = (value(&x, env), value(&gate, env));
            let weight = (env.leaf)(Slot::GatedNorm);
            let from = seq![idx[0], idx[1], idx[2] / vw as int, idx[2] % vw as int];
            &&& u.shape == seq![b as nat, s as nat, h * vw as nat]
            &&& u.format == t.format
            &&& within(t.shape, from)
            &&& (u.at)(idx) == gated_row(
                line(t, 3, from),
                t.format,
                line(g, 3, from),
                g.format,
                line(weight, 0, seq![0]),
                weight.format,
                FloatSetting::Double(eps),
                env.arithmetic,
            )[from[3]]
        }),
{
    let (t, g) = (value(&x, env), value(&gate, env));
    let w = vw as nat;
    let full = seq![b as nat, s as nat, h, w];
    let n = graph::elements(full.take(3));
    assert(full.take(3) =~= seq![b as nat, s as nat, h]);
    shapes::lemma_elements(b as nat, s as nat, h, 0, 0);
    assert(n == b * s * h);
    let (x2, g2) = (reshape(&x, Dims::HoleOne(vw)), reshape(&gate, Dims::HoleOne(vw)));
    recurrence_laws::lemma_rows(t, vw);
    recurrence_laws::lemma_rows(g, vw);
    assert(value(&x2, env) == flattened(t) && value(&g2, env) == flattened(g)) by {
        broadcast use meaning::group_value;

    }
    cache_laws::lemma_merged_place(b as nat, s as nat, h, w, idx);
    let k = idx[2];
    let from = seq![idx[0], idx[1], k / vw as int, k % vw as int];
    causal_laws::lemma_offset_split(b as nat, s as nat, h, w, from);
    let i = vw as int;
    assert((k / i) * i + k % i == k) by (nonlinear_arith)
        requires
            i > 0,
    ;
    assert(seq![from[0], from[1], from[2] * w + from[3]] =~= idx);
    causal_laws::lemma_flat_row(t, from);
    let r = offset(full.take(3), from.take(3));
    let rows = rms_norm_gated(&x2, &g2, eps);
    assert(0 <= r < n && 0 <= from[3] < w) by {
        let to = seq![r, from[3]];
        assert(within(seq![n, w], to));
        assert(0 <= to[0] < seq![n, w][0] && 0 <= to[1] < seq![n, w][1]);
    }
    lemma_gated_row(x2, g2, eps, env, n, w, r, from[3]);
    recurrence_laws::lemma_flat_line(t, from);
    recurrence_laws::lemma_flat_line(g, from);
    shapes::lemma_rows_joined_into(b, s, h, w);
    broadcast use meaning::group_value;

    assert(value(&joined_rows(&x, &gate, eps, b, s, vw), env) == reshaped(
        value(&rows, env),
        seq![b as nat, s as nat, h * w],
    ));
}

/// The same as [`takes`], through the gated norm.
proof fn lemma_takes_rows<E>(
    x1: Rc<Node>,
    gate1: Rc<Node>,
    e1: World<E>,
    x: Rc<Node>,
    gate: Rc<Node>,
    e: World<E>,
    eps: u64,
    b: usize,
    s: usize,
    n: usize,
    h: nat,
    vw: usize,
    off: int,
)
    requires
        same_model(e1, e),
        vw > 0,
        s > 0,
        n > 0,
        b > 0,
        h > 0,
        takes(x1, e1, x, e, seq![b as nat, n as nat, h, vw as nat], 1, off, s as nat),
        takes(gate1, e1, gate, e, seq![b as nat, n as nat, h, vw as nat], 1, off, s as nat),
        (e.leaf)(Slot::GatedNorm).shape == seq![vw as nat],
    ensures
        takes(
            joined_rows(&x1, &gate1, eps, b, s, vw),
            e1,
            joined_rows(&x, &gate, eps, b, n, vw),
            e,
            seq![b as nat, n as nat, h * vw as nat],
            1,
            off,
            s as nat,
        ),
{
    let width = h * vw as nat;
    let full = seq![b as nat, n as nat, h, vw as nat];
    let full1 = seq![b as nat, s as nat, h, vw as nat];
    assert(full.update(1, s as nat) =~= full1);
    let three = seq![b as nat, n as nat, width];
    let three1 = seq![b as nat, s as nat, width];
    assert(three.update(1, s as nat) =~= three1);
    assert(width > 0) by (nonlinear_arith)
        requires
            width == h * vw as nat,
            h > 0,
            vw > 0,
    ;
    let (t1, t) = (value(&x1, e1), value(&x, e));
    let (g1, g) = (value(&gate1, e1), value(&gate, e));
    let l = value(&joined_rows(&x1, &gate1, eps, b, s, vw), e1);
    let r = value(&joined_rows(&x, &gate, eps, b, n, vw), e);
    let origin = seq![0int, 0, 0];
    assert(within(three1, origin) && within(three, origin));
    lemma_joined_rows(x1, gate1, eps, e1, b, s, h, vw, origin);
    lemma_joined_rows(x, gate, eps, e, b, n, h, vw, origin);
    assert forall|idx: Seq<int>| #[trigger] within(l.shape, idx) implies (l.at)(idx) == (r.at)(
        idx.update(1, idx[1] + off),
    ) by {
        let to = idx.update(1, idx[1] + off);
        cache_laws::lemma_within_part(three1, three, 1, off, idx);
        lemma_joined_rows(x1, gate1, eps, e1, b, s, h, vw, idx);
        lemma_joined_rows(x, gate, eps, e, b, n, h, vw, to);
        let k = vw as int;
        let from = seq![idx[0], idx[1], idx[2] / k, idx[2] % k];
        assert(from.update(1, from[1] + off) =~= seq![to[0], to[1], to[2] / k, to[2] % k]);
        assert forall|j: int| 0 <= j < from.len() - 1 implies 0 <= #[trigger] from[j]
            < t1.shape[j] by {}
        cache_laws::lemma_line(t1, t, 1, off, from);
        cache_laws::lemma_line(g1, g, 1, off, from);
    }
}

/// The last of three dimensions split into heads of a given width.
proof fn lemma_takes_split<E>(
    x1: Rc<Node>,
    step1: Step,
    e1: World<E>,
    x: Rc<Node>,
    step: Step,
    e: World<E>,
    h: nat,
    d: usize,
    off: int,
)
    requires
        step1.batch == step.batch,
        step.batch > 0,
        step.len > 0,
        step1.len > 0,
        d > 0,
        takes(
            x1,
            e1,
            x,
            e,
            seq![step.batch as nat, step.len as nat, h * d as nat],
            1,
            off,
            step1.len as nat,
        ),
    ensures
        takes(
            split(&x1, step1, d),
            e1,
            split(&x, step, d),
            e,
            seq![step.batch as nat, step.len as nat, h, d as nat],
            1,
            off,
            step1.len as nat,
        ),
        value(&split(&x1, step1, d), e1).regular(),
{
    broadcast use meaning::group_value;

    let (b, s, n) = (step.batch, step1.len, step.len);
    let (y1, y) = (value(&x1, e1), value(&x, e));
    let w = h * d as nat;
    assert(y1.shape =~= seq![b as nat, s as nat, w]);
    shapes::lemma_split_into(b, s, w, h, d);
    shapes::lemma_split_into(b, n, w, h, d);
    cache_laws::lemma_split(y1, y, b as nat, s as nat, n as nat, h, d as nat, off);
    assert(seq![b as nat, n as nat, h, d as nat].update(1, s as nat) =~= seq![
        b as nat,
        s as nat,
        h,
        d as nat,
    ]);
}

/// Where an element of repeated heads comes from.
proof fn lemma_repeat_place(b: nat, s: nat, h: nat, k: nat, d: nat, idx: Seq<int>)
    requires
        within(seq![b, s, h * k, d], idx),
    ensures
        ({
            let from = seq![idx[0], idx[1], idx[2] / k as int, idx[2] % k as int, idx[3]];
            &&& within(seq![b, s, h, k, d], from)
            &&& place(seq![b, s, h, k, d], offset(seq![b, s, h * k, d], idx)) == from
        }),
{
    let four = seq![b, s, h * k, d];
    let five = seq![b, s, h, k, d];
    assert(0 <= idx[0] < four[0] && 0 <= idx[1] < four[1] && 0 <= idx[2] < four[2] && 0 <= idx[3]
        < four[3]);
    let (q, n) = (idx[2], k as int);
    assert(n > 0 && 0 <= q / n < h && 0 <= q % n < n && (q / n) * n + q % n == q)
        by (nonlinear_arith)
        requires
            0 <= q < h * n,
            n >= 0,
    ;
    let from = seq![idx[0], idx[1], q / n, q % n, idx[3]];
    assert(within(five, from));
    causal_laws::lemma_place(five, from);
    let three = seq![idx[0], idx[1], q];
    let split_up = seq![idx[0], idx[1], q / n, q % n];
    causal_laws::lemma_offset_split(b, s, h, k, split_up);
    assert(seq![split_up[0], split_up[1], split_up[2] * k + split_up[3]] =~= three);
    reveal_with_fuel(offset, 2);
    assert(four.drop_last() =~= seq![b, s, h * k]);
    assert(idx.drop_last() =~= three);
    assert(five.drop_last() =~= seq![b, s, h, k]);
    assert(from.drop_last() =~= split_up);
}

/// Heads that are repeated next to each other.
proof fn lemma_takes_repeat<E>(
    x1: Rc<Node>,
    e1: World<E>,
    x: Rc<Node>,
    e: World<E>,
    k: usize,
    heads1: Heads,
    heads: Heads,
    off: int,
)
    requires
        heads.heads * k <= usize::MAX,
        k > 0,
        heads1 == (Heads { len: heads1.len, ..heads }),
        takes(
            x1,
            e1,
            x,
            e,
            seq![
                heads.batch as nat,
                heads.len as nat,
                heads.heads as nat,
                heads.width as nat,
            ],
            1,
            off,
            heads1.len as nat,
        ),
        value(&x1, e1).regular(),
    ensures
        takes(
            repeat_interleave(&x1, k, heads1),
            e1,
            repeat_interleave(&x, k, heads),
            e,
            seq![
                heads.batch as nat,
                heads.len as nat,
                (heads.heads * k) as nat,
                heads.width as nat,
            ],
            1,
            off,
            heads1.len as nat,
        ),
        value(&repeat_interleave(&x1, k, heads1), e1).regular(),
{
    broadcast use meaning::group_value;

    let (b, s, n) = (heads.batch as nat, heads1.len as nat, heads.len as nat);
    let (h, d, kn) = (heads.heads as nat, heads.width as nat, k as nat);
    if k == 1 {
        assert(heads.heads * k == heads.heads);
    } else {
        let (y1, y) = (value(&x1, e1), value(&x, e));
        assert(seq![b, n, h, d].update(1, s) =~= seq![b, s, h, d]);
        let target = (heads.heads * k) as usize;
        let (l, r) = (
            reshaped(expanded(unsqueezed(y1, 3), seq![b, s, h, kn, d]), seq![b, s, h * kn, d]),
            reshaped(expanded(unsqueezed(y, 3), seq![b, n, h, kn, d]), seq![b, n, h * kn, d]),
        );
        assert(value(&repeat_interleave(&x1, k, heads1), e1) == l);
        assert(value(&repeat_interleave(&x, k, heads), e) == r);
        assert(l.shape =~= r.shape.update(1, s));
        assert forall|idx: Seq<int>| #[trigger] within(l.shape, idx) implies (l.at)(idx) == (r.at)(
            idx.update(1, idx[1] + off),
        ) by {
            let to = idx.update(1, idx[1] + off);
            cache_laws::lemma_within_part(l.shape, r.shape, 1, off, idx);
            lemma_repeated_element(y1, b, s, h, kn, d, idx);
            lemma_repeated_element(y, b, n, h, kn, d, to);
            let q = k as int;
            let from = seq![idx[0], idx[1], idx[2] / q, idx[3]];
            assert(from.update(1, from[1] + off) =~= seq![to[0], to[1], to[2] / q, to[3]]);
        }
    }
}

/// An element of repeated heads.
pub proof fn lemma_repeated_element<E>(
    y: Tensor<E>,
    b: nat,
    s: nat,
    h: nat,
    k: nat,
    d: nat,
    idx: Seq<int>,
)
    requires
        y.shape == seq![b, s, h, d],
        within(seq![b, s, h * k, d], idx),
    ensures
        within(y.shape, seq![idx[0], idx[1], idx[2] / k as int, idx[3]]),
        (reshaped(expanded(unsqueezed(y, 3), seq![b, s, h, k, d]), seq![b, s, h * k, d]).at)(idx)
            == (y.at)(seq![idx[0], idx[1], idx[2] / k as int, idx[3]]),
{
    lemma_repeat_place(b, s, h, k, d, idx);
    let five = seq![b, s, h, k, d];
    let from = seq![idx[0], idx[1], idx[2] / k as int, idx[2] % k as int, idx[3]];
    assert(0 <= from[0] < five[0] && 0 <= from[1] < five[1] && 0 <= from[2] < five[2] && 0
        <= from[3] < five[3] && 0 <= from[4] < five[4]);
    let up = unsqueezed(y, 3);
    assert(up.shape =~= seq![b, s, h, 1, d]);
    let c = clipped(up.shape, from);
    assert(c =~= seq![from[0], from[1], from[2], 0, from[4]]);
    assert(within(up.shape, c));
    assert(c.remove(3) =~= seq![idx[0], idx[1], idx[2] / k as int, idx[3]]);
    assert(within(y.shape, c.remove(3)));
}

/// The decay: `a * softplus(x + dt_bias)`.
proof fn lemma_takes_decay<E>(
    x: Rc<Node>,
    e1: World<E>,
    e: World<E>,
    b: nat,
    n: nat,
    h: nat,
    off: int,
    len: nat,
)
    requires
        same_model(e1, e),
        takes(x, e1, x, e, seq![b, n, h], 1, off, len),
        (e.leaf)(Slot::DtBias).shape == seq![h],
        (e.leaf)(Slot::NegativeDecay).shape == seq![h],
    ensures
        takes(
            pair(Pairwise::BroadcastMul, &leaf(Slot::NegativeDecay), &softplus(&x)),
            e1,
            pair(Pairwise::BroadcastMul, &leaf(Slot::NegativeDecay), &softplus(&x)),
            e,
            seq![b, n, h],
            1,
            off,
            len,
        ),
        value(
            &pair(Pairwise::BroadcastMul, &leaf(Slot::NegativeDecay), &softplus(&x)),
            e1,
        ).regular(),
{
    broadcast use meaning::group_value;

    let a = e.arithmetic;
    let (x1, x0) = (value(&x, e1), value(&x, e));
    cache_laws::lemma_formatted(x1, x0, 1, off, a.single, a);
    let (s1, s0) = (formatted(x1, a.single, a), formatted(x0, a.single, a));
    let add = |p: E, q: E| (a.pair)(Pairwise::BroadcastAdd, p, q);
    let mul = |p: E, q: E| (a.pair)(Pairwise::BroadcastMul, p, q);
    let exp = |e: E| (a.apply)(SameShape::Exp, e);
    let one = |e: E| (a.plus)(e, Scalar::One);
    let log = |e: E| (a.apply)(SameShape::Log, e);
    let (bias, decay) = ((e.leaf)(Slot::DtBias), (e.leaf)(Slot::NegativeDecay));
    cache_laws::lemma_biased(s1, s0, bias, off, add);
    let (b1, b0) = (broadcasted(s1, bias, add), broadcasted(s0, bias, add));
    cache_laws::lemma_mapped(b1, b0, 1, off, exp);
    let (c1, c0) = (mapped(b1, exp), mapped(b0, exp));
    cache_laws::lemma_mapped(c1, c0, 1, off, one);
    let (d1, d0) = (mapped(c1, one), mapped(c0, one));
    cache_laws::lemma_mapped(d1, d0, 1, off, log);
    let (t1, t0) = (mapped(d1, log), mapped(d0, log));
    assert(value(&softplus(&x), e1) == t1);
    assert(value(&softplus(&x), e) == t0);
    let (l, r) = (broadcasted(decay, t1, mul), broadcasted(decay, t0, mul));
    shapes::lemma_broadcast_last(t1.shape, h);
    shapes::lemma_broadcast_last(t0.shape, h);
    assert(t1.shape =~= t0.shape.update(1, len));
    assert forall|idx: Seq<int>| #[trigger] within(l.shape, idx) implies (l.at)(idx) == (r.at)(
        idx.update(1, idx[1] + off),
    ) by {
        let to = idx.update(1, idx[1] + off);
        cache_laws::lemma_within_part(t1.shape, t0.shape, 1, off, idx);
        meaning::lemma_clipped(t1.shape, idx);
        meaning::lemma_clipped(t0.shape, to);
        assert(clipped(decay.shape, idx) =~= clipped(decay.shape, to));
    }
}

/// The dimensions of the layer's convolution.
pub open spec fn conv_dims(w: DeltaNetDims, batch: usize) -> ConvDims {
    ConvDims { batch, channels: w.conv_dim, kernel: w.conv_kernel_size }
}

/// What the layer has to be, and the tensors and the input of a whole pass.
pub open spec fn runs<E>(
    w: DeltaNetDims,
    x: Rc<Node>,
    whole: Step,
    e: World<E>,
    known: graph::Shapes,
    hidden: nat,
) -> bool {
    &&& w.runnable()
    &&& w.consistent()
    &&& w.num_v_heads > 0
    &&& whole.batch > 0
    &&& whole.len > 0
    &&& w.described_by(known, whole, hidden, false)
    &&& matches_shapes(e, known)
    &&& graph::closed(&x)
    &&& value(&x, e).shape == seq![whole.batch as nat, whole.len as nat, hidden]
}

/// The channels of a piece before the convolution.
proof fn lemma_mixed<E>(
    w: DeltaNetDims,
    x: Rc<Node>,
    piece: Step,
    e1: World<E>,
    whole: Step,
    e: World<E>,
    known: graph::Shapes,
    hidden: nat,
)
    requires
        runs(w, x, whole, e, known, hidden),
        is_piece(x, piece, e1, whole, e, hidden),
    ensures
        value(&w.mixed(x), e).shape == seq![
            whole.batch as nat,
            w.conv_dim as nat,
            whole.len as nat,
        ],
        value(&w.mixed(x), e1) == narrowed(
            value(&w.mixed(x), e),
            2,
            piece.offset as int,
            piece.len as nat,
        ),
{
    broadcast use meaning::group_value;

    let (b, n, c) = (whole.batch as nat, whole.len as nat, w.conv_dim as nat);
    let (off, len) = (piece.offset as int, piece.len as nat);
    assert((known.linear)(Projection::MixedQkv) is Some);
    recurrence_laws::lemma_takes_linear(
        Projection::MixedQkv,
        x,
        e1,
        e,
        b,
        n,
        hidden,
        c,
        off,
        len,
    );
    let map = linear(Projection::MixedQkv, &apply(SameShape::Contiguous, &x));
    let (y1, y) = (value(&map, e1), value(&map, e));
    cache_laws::lemma_transposed(y1, y, 1, off);
    let (z1, z) = (transposed(y1, 1, 2), transposed(y, 1, 2));
    assert(z.shape =~= seq![b, c, n]);
    assert(z1.shape =~= seq![b, c, len]);
    recurrence_laws::lemma_is_narrowed(z1, z, 2, off);
}

/// The convolution of the first positions, and the state that it leaves.
proof fn lemma_conv_first<E>(
    w: DeltaNetDims,
    x: Rc<Node>,
    piece: Step,
    e1: World<E>,
    whole: Step,
    e: World<E>,
    known: graph::Shapes,
    hidden: nat,
)
    requires
        runs(w, x, whole, e, known, hidden),
        is_piece(x, piece, e1, whole, e, hidden),
        piece.offset == 0,
        0 < piece.len,
    ensures
        ({
            let dims = conv_dims(w, whole.batch);
            let all = value(&w.mixed(x), e);
            &&& value(&w.convolution(x, piece, false), e1) == transposed(
                narrowed(all_outputs(true, e, dims, all), 2, 0, piece.len as nat),
                1,
                2,
            )
            &&& value(&w.conv_state(x, piece, false), e1) == narrowed(
                behind_zeros(e, dims, all),
                2,
                piece.len as int,
                (w.conv_kernel_size - 1) as nat,
            )
        }),
{
    broadcast use {meaning::group_value, graph::group_closed};

    let dims = conv_dims(w, whole.batch);
    let all = value(&w.mixed(x), e);
    let pad = (w.conv_kernel_size - 1) as usize;
    let len = piece.len;
    lemma_mixed(w, x, piece, e1, whole, e, known, hidden);
    let first = value(&w.mixed(x), e1);
    let input = w.conv_input(x, piece, false);
    let z = behind_zeros(e, dims, all);
    assert(conv_laws::fits(true, e, dims, all));
    conv_laws::lemma_behind_zeros(e, dims, all, len as nat, 0, 0);
    assert(value(&input, e1) == behind_zeros(e, dims, first));
    conv_laws::lemma_part_of_outputs(true, e, dims, all, input, e1, 0, len);
    meaning::lemma_part_of_part(z, 2, 0, (len + pad) as nat, len as int, pad as nat);
}

/// The convolution of one more position, and the state that it leaves.
proof fn lemma_conv_next<E>(
    w: DeltaNetDims,
    x: Rc<Node>,
    piece: Step,
    e2: World<E>,
    whole: Step,
    e: World<E>,
    known: graph::Shapes,
    hidden: nat,
)
    requires
        runs(w, x, whole, e, known, hidden),
        is_piece(x, piece, e2, whole, e, hidden),
        piece.len == 1,
        (e2.leaf)(Slot::ConvState) == narrowed(
            behind_zeros(e, conv_dims(w, whole.batch), value(&w.mixed(x), e)),
            2,
            piece.offset as int,
            (w.conv_kernel_size - 1) as nat,
        ),
    ensures
        ({
            let dims = conv_dims(w, whole.batch);
            let all = value(&w.mixed(x), e);
            &&& value(&w.convolution(x, piece, true), e2) == transposed(
                narrowed(all_outputs(true, e, dims, all), 2, piece.offset as int, 1),
                1,
                2,
            )
            &&& value(&w.conv_state(x, piece, true), e2) == narrowed(
                behind_zeros(e, dims, all),
                2,
                piece.offset + 1,
                (w.conv_kernel_size - 1) as nat,
            )
        }),
{
    broadcast use {meaning::group_value, graph::group_closed};

    let dims = conv_dims(w, whole.batch);
    let all = value(&w.mixed(x), e);
    let pad = (w.conv_kernel_size - 1) as usize;
    let m = piece.offset as int;
    lemma_mixed(w, x, piece, e2, whole, e, known, hidden);
    let column = value(&w.mixed(x), e2);
    let input = w.conv_input(x, piece, true);
    let z = behind_zeros(e, dims, all);
    assert(conv_laws::fits(true, e, dims, all));
    conv_laws::lemma_behind_zeros(e, dims, all, 0, m, 1);
    conv_laws::lemma_joined_parts(z, m, pad as nat, 1);
    assert(value(&input, e2) == joined((e2.leaf)(Slot::ConvState), column, 2));
    conv_laws::lemma_part_of_outputs(true, e, dims, all, input, e2, m, 1);
    meaning::lemma_part_of_part(z, 2, m, pad as nat + 1, 1, pad as nat);
}

/// Heads of a part of the channels.
proof fn lemma_takes_channels<E>(
    x1: Rc<Node>,
    step1: Step,
    e1: World<E>,
    x: Rc<Node>,
    step: Step,
    e: World<E>,
    start: usize,
    count: usize,
    h: nat,
    d: usize,
    c: nat,
    off: int,
)
    requires
        step1.batch == step.batch,
        step.batch > 0,
        step.len > 0,
        step1.len > 0,
        d > 0,
        takes(
            x1,
            e1,
            x,
            e,
            seq![step.batch as nat, step.len as nat, c],
            1,
            off,
            step1.len as nat,
        ),
        count == h * d,
        start + count <= c,
    ensures
        takes(
            split(&ops::narrow(&x1, 2, start, count), step1, d),
            e1,
            split(&ops::narrow(&x, 2, start, count), step, d),
            e,
            seq![step.batch as nat, step.len as nat, h, d as nat],
            1,
            off,
            step1.len as nat,
        ),
        value(&split(&ops::narrow(&x1, 2, start, count), step1, d), e1).regular(),
{
    let (n1, n0) = (ops::narrow(&x1, 2, start, count), ops::narrow(&x, 2, start, count));
    let three = seq![step.batch as nat, step.len as nat, h * d as nat];
    assert(takes(n1, e1, n0, e, three, 1, off, step1.len as nat)) by {
        broadcast use meaning::group_value;

        let (y1, y) = (value(&x1, e1), value(&x, e));
        cache_laws::lemma_narrowed(y1, y, 1, off, 2, start as int, count as nat);
        let (z1, z) = (
            narrowed(y1, 2, start as int, count as nat),
            narrowed(y, 2, start as int, count as nat),
        );
        assert(z.shape =~= three);
        assert(z1.shape =~= three.update(1, step1.len as nat));
    }
    lemma_takes_split(n1, step1, e1, n0, step, e, h, d, off);
}

/// The inputs of the delta rule on a piece are those of the whole, where the convolution's are.
proof fn lemma_inputs<E>(
    kept: bool,
    w: DeltaNetDims,
    x: Rc<Node>,
    piece: Step,
    e1: World<E>,
    whole: Step,
    e: World<E>,
    known: graph::Shapes,
    hidden: nat,
)
    requires
        runs(w, x, whole, e, known, hidden),
        is_piece(x, piece, e1, whole, e, hidden),
        0 < piece.len,
        ({
            let all = all_outputs(
                true,
                e,
                conv_dims(w, whole.batch),
                value(&w.mixed(x), e),
            );
            value(&w.convolution(x, piece, kept), e1) == transposed(
                narrowed(all, 2, piece.offset as int, piece.len as nat),
                1,
                2,
            )
        }),
    ensures
        delta_laws::is_part(
            &w.delta_inputs(x, piece, kept),
            e1,
            &w.delta_inputs(x, whole, false),
            e,
            piece.offset as int,
            piece.len as nat,
        ),
        delta_laws::are_closed(&w.delta_inputs(x, piece, kept)),
        delta_laws::have_dims(&w.delta_inputs(x, whole, false), e, w.delta_dims(whole)),
        w.delta_dims(whole).heads == w.num_v_heads,
{
    let (b, n, s) = (whole.batch, whole.len, piece.len);
    let (bn, nn, sn) = (b as nat, n as nat, s as nat);
    let off = piece.offset as int;
    let c = w.conv_dim as nat;
    let states = apply(SameShape::Contiguous, &x);
    let dims = conv_dims(w, b);
    let mixed = value(&w.mixed(x), e);
    let all = all_outputs(true, e, dims, mixed);
    recurrence_laws::lemma_own_piece(x, whole, e, hidden);
    lemma_conv_first(w, x, whole, e, whole, e, known, hidden);
    let (q1, q0) = (w.convolution(x, piece, kept), w.convolution(x, whole, false));
    assert(takes(q1, e1, q0, e, seq![bn, nn, c], 1, off, sn)) by {
        lemma_mixed(w, x, whole, e, whole, e, known, hidden);
        conv_laws::lemma_behind_zeros(e, dims, mixed, 0, 0, 0);
        conv_laws::lemma_outputs_of_part(
            true,
            behind_zeros(e, dims, mixed),
            (e.leaf)(Slot::ConvWeight),
            bn,
            c,
            w.conv_kernel_size as nat,
            nn,
            0,
            nn,
            e.arithmetic,
        );
        assert(all.shape == seq![bn, c, nn]);
        recurrence_laws::lemma_parts(all, 2, off, sn, nn);
        let (y1, y) = (narrowed(all, 2, off, sn), narrowed(all, 2, 0, nn));
        cache_laws::lemma_transposed(y1, y, 2, off);
        assert(transposed(y, 1, 2).shape =~= seq![bn, nn, c]);
        assert(transposed(y1, 1, 2).shape =~= seq![bn, nn, c].update(1, sn));
    }
    let (kd, vd) = (w.key_dim, w.value_dim);
    let (kh, kw, vw) = (w.num_k_heads, w.head_k_dim, w.head_v_dim);
    let h = w.num_v_heads;
    assert(kd == kh * kw && vd == h * vw) by (nonlinear_arith)
        requires
            kd == kw * kh,
            vd == vw * h,
    ;
    let k = w.repeats();
    assert(kh * k == h && k > 0) by (nonlinear_arith)
        requires
            kh > 0,
            h > 0,
            h % kh == 0,
            k == h / kh,
    ;
    lemma_takes_channels(q1, piece, e1, q0, whole, e, 0, kd, kh as nat, kw, c, off);
    lemma_takes_channels(q1, piece, e1, q0, whole, e, kd, kd, kh as nat, kw, c, off);
    let twice = (kd * 2) as usize;
    lemma_takes_channels(q1, piece, e1, q0, whole, e, twice, vd, h as nat, vw, c, off);
    let (heads1, heads) = (w.key_heads(piece), w.key_heads(whole));
    lemma_takes_repeat(
        split(&ops::narrow(&q1, 2, 0, kd), piece, kw),
        e1,
        split(&ops::narrow(&q0, 2, 0, kd), whole, kw),
        e,
        k,
        heads1,
        heads,
        off,
    );
    lemma_takes_repeat(
        split(&ops::narrow(&q1, 2, kd, kd), piece, kw),
        e1,
        split(&ops::narrow(&q0, 2, kd, kd), whole, kw),
        e,
        k,
        heads1,
        heads,
        off,
    );
    assert((known.linear)(Projection::Alpha) is Some && (known.linear)(Projection::Beta) is Some);
    assert((known.leaf)(Slot::DtBias) is Some && (known.leaf)(Slot::NegativeDecay) is Some);
    let hn = h as nat;
    recurrence_laws::lemma_takes_linear(
        Projection::Alpha,
        x,
        e1,
        e,
        bn,
        nn,
        hidden,
        hn,
        off,
        sn,
    );
    recurrence_laws::lemma_takes_linear(
        Projection::Beta,
        x,
        e1,
        e,
        bn,
        nn,
        hidden,
        hn,
        off,
        sn,
    );
    let alpha = linear(Projection::Alpha, &states);
    let beta = linear(Projection::Beta, &states);
    lemma_takes_decay(alpha, e1, e, bn, nn, hn, off, sn);
    let gate = apply(SameShape::Sigmoid, &beta);
    assert(takes(gate, e1, gate, e, seq![bn, nn, hn], 1, off, sn) && value(
        &gate,
        e1,
    ).regular()) by {
        broadcast use meaning::group_value;

        let f = |e: E| (e1.arithmetic.apply)(SameShape::Sigmoid, e);
        cache_laws::lemma_mapped(value(&beta, e1), value(&beta, e), 1, off, f);
    }
    let (i1, i0) = (w.delta_inputs(x, piece, kept), w.delta_inputs(x, whole, false));
    recurrence_laws::lemma_is_narrowed(value(&i1.query, e1), value(&i0.query, e), 1, off);
    recurrence_laws::lemma_is_narrowed(value(&i1.key, e1), value(&i0.key, e), 1, off);
    recurrence_laws::lemma_is_narrowed(value(&i1.value, e1), value(&i0.value, e), 1, off);
    recurrence_laws::lemma_is_narrowed(value(&i1.decay, e1), value(&i0.decay, e), 1, off);
    recurrence_laws::lemma_is_narrowed(value(&i1.beta, e1), value(&i0.beta, e), 1, off);
    assert(delta_laws::are_closed(&i1)) by {
        broadcast use graph::group_closed;

    }
}

/// The output of a piece is part of the output, where the answers of the rule are.
proof fn lemma_output<E>(
    kept: bool,
    w: DeltaNetDims,
    x: Rc<Node>,
    piece: Step,
    e1: World<E>,
    whole: Step,
    e: World<E>,
    known: graph::Shapes,
    hidden: nat,
)
    requires
        runs(w, x, whole, e, known, hidden),
        is_piece(x, piece, e1, whole, e, hidden),
        0 < piece.len,
        takes(
            answers(&w.rule(x, piece, kept)),
            e1,
            answers(&w.rule(x, whole, false)),
            e,
            seq![
                whole.batch as nat,
                whole.len as nat,
                w.num_v_heads as nat,
                w.head_v_dim as nat,
            ],
            1,
            piece.offset as int,
            piece.len as nat,
        ),
    ensures
        takes(
            w.output(x, piece, kept),
            e1,
            w.output(x, whole, false),
            e,
            seq![whole.batch as nat, whole.len as nat, hidden],
            1,
            piece.offset as int,
            piece.len as nat,
        ),
        value(&w.output(x, whole, false), e).regular(),
{
    let a = e.arithmetic;
    let (b, n, s) = (whole.batch, whole.len, piece.len);
    let (bn, nn, sn) = (b as nat, n as nat, s as nat);
    let off = piece.offset as int;
    let (h, vw) = (w.num_v_heads, w.head_v_dim);
    let full = seq![bn, nn, h as nat, vw as nat];
    let states = apply(SameShape::Contiguous, &x);
    let (a1, a0) = (answers(&w.rule(x, piece, kept)), answers(&w.rule(x, whole, false)));
    let (r1, r0) = (
        pair(Pairwise::FormatOf, &a1, &states),
        pair(Pairwise::FormatOf, &a0, &states),
    );
    assert(takes(r1, e1, r0, e, full, 1, off, sn)) by {
        broadcast use meaning::group_value;

        let f = value(&x, e).format;
        cache_laws::lemma_formatted(value(&a1, e1), value(&a0, e), 1, off, f, a);
    }
    assert((known.linear)(Projection::MixerGate) is Some);
    assert((known.linear)(Projection::MixerOutput) is Some);
    assert((known.leaf)(Slot::GatedNorm) is Some);
    let width = w.value_dim as nat;
    assert(width == h * vw) by (nonlinear_arith)
        requires
            width == vw * h,
    ;
    recurrence_laws::lemma_takes_linear(
        Projection::MixerGate,
        x,
        e1,
        e,
        bn,
        nn,
        hidden,
        width,
        off,
        sn,
    );
    let z = linear(Projection::MixerGate, &states);
    lemma_takes_split(z, piece, e1, z, whole, e, h as nat, vw, off);
    let (g1, g0) = (split(&z, piece, vw), split(&z, whole, vw));
    lemma_takes_rows(r1, g1, e1, r0, g0, e, w.norm_eps, b, s, n, h as nat, vw, off);
    let j1 = joined_rows(&r1, &g1, w.norm_eps, b, s, vw);
    let j0 = joined_rows(&r0, &g0, w.norm_eps, b, n, vw);
    assert(w.output(x, piece, kept) == linear(Projection::MixerOutput, &j1));
    assert(w.output(x, whole, false) == linear(Projection::MixerOutput, &j0));
    let f = |row: Seq<E>| (a.linear)(Projection::MixerOutput, row);
    cache_laws::lemma_by_rows(value(&j1, e1), value(&j0, e), 1, off, hidden, f);
    let three = seq![bn, nn, width];
    assert(three.update(2, hidden) =~= seq![bn, nn, hidden]);
    assert(three.update(1, sn).update(2, hidden) =~= seq![bn, nn, hidden].update(1, sn));
    broadcast use meaning::group_value;

    assert(value(&w.output(x, whole, false), e).regular());
}

/// A recurrent layer of the dense model continues from its states: after a pass over `m` positions,
/// a pass over one more from the states that it left gives, behind what the first pass gave, what
/// one pass over all `m + 1` positions gives. The states in the end are the same.
pub proof fn dense_recurrence_continues_from_its_states<E>(
    w: DeltaNetDims,
    x: Rc<Node>,
    batch: usize,
    m: usize,
    known: graph::Shapes,
    hidden: nat,
    e: World<E>,
    e1: World<E>,
    e2: World<E>,
)
    requires
        0 < m < usize::MAX,
        runs(w, x, whole_step(batch, m), e, known, hidden),
        is_piece(x, first_step(batch, m), e1, whole_step(batch, m), e, hidden),
        is_piece(x, next_step(batch, m), e2, whole_step(batch, m), e, hidden),
        (e2.leaf)(Slot::ConvState) == value(
            &w.conv_state(x, first_step(batch, m), false),
            e1,
        ),
        (e2.leaf)(Slot::RecurrentState) == value(
            &scan_state(&w.rule(x, first_step(batch, m), false)),
            e1,
        ),
    ensures
        value(&w.output(x, whole_step(batch, m), false), e) == joined(
            value(&w.output(x, first_step(batch, m), false), e1),
            value(&w.output(x, next_step(batch, m), true), e2),
            1,
        ),
        value(&w.conv_state(x, next_step(batch, m), true), e2) == value(
            &w.conv_state(x, whole_step(batch, m), false),
            e,
        ),
        value(&scan_state(&w.rule(x, next_step(batch, m), true)), e2) == value(
            &scan_state(&w.rule(x, whole_step(batch, m), false)),
            e,
        ),
{
    let (whole, first, next) = (whole_step(batch, m), first_step(batch, m), next_step(batch, m));
    let n = (m + 1) as usize;
    recurrence_laws::lemma_own_piece(x, whole, e, hidden);
    lemma_conv_first(w, x, first, e1, whole, e, known, hidden);
    lemma_conv_first(w, x, whole, e, whole, e, known, hidden);
    lemma_conv_next(w, x, next, e2, whole, e, known, hidden);
    lemma_inputs(false, w, x, first, e1, whole, e, known, hidden);
    lemma_inputs(false, w, x, whole, e, whole, e, known, hidden);
    lemma_inputs(true, w, x, next, e2, whole, e, known, hidden);
    let dims = w.delta_dims(whole);
    let (i0, i1, i2) = (
        w.delta_inputs(x, whole, false),
        w.delta_inputs(x, first, false),
        w.delta_inputs(x, next, true),
    );
    delta_laws::delta_rule_in_two_pieces(&i0, e, &i1, e1, &i2, e2, dims, m, false);
    let (a0, a1, a2) = (
        answers(&w.rule(x, whole, false)),
        answers(&w.rule(x, first, false)),
        answers(&w.rule(x, next, true)),
    );
    let (t1, t2) = (value(&a1, e1), value(&a2, e2));
    assert(t2.shape =~= t1.shape.update(1, t2.shape[1]));
    recurrence_laws::lemma_joined_parts(t1, t2, 1);
    let full = seq![batch as nat, n as nat, w.num_v_heads as nat, w.head_v_dim as nat];
    assert(value(&a0, e).shape =~= full);
    assert(t1.shape =~= full.update(1, m as nat));
    assert(t2.shape =~= full.update(1, 1));
    lemma_output(false, w, x, first, e1, whole, e, known, hidden);
    lemma_output(true, w, x, next, e2, whole, e, known, hidden);
    cache_laws::lemma_joined(
        value(&w.output(x, first, false), e1),
        value(&w.output(x, next, true), e2),
        value(&w.output(x, whole, false), e),
        1,
    );
}

}
