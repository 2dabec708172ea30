//! Recurrent layers that continue from their states.
use crate::blocks::{mean_square_norm, softplus};
use crate::cache_laws;
use crate::cache_laws::{
    first_step, is_piece, next_step, part, same_model, takes, whole_step,
};
use crate::causal_laws;
use crate::causal_laws::in_format;
use crate::conv_laws;
use crate::conv_laws::{all_outputs, behind_zeros, ConvDims};
use crate::delta::answers;
use crate::delta_laws;
use crate::graph;
use crate::graph::{Dims, FloatSetting, Node, Pairwise, Projection, SameShape, Scalar, Slot};
use crate::meaning;
use crate::meaning::{
    broadcasted, by_row, by_rows, clipped, flattened, formatted, joined, line, mapped, narrowed,
    offset, reshaped, transposed, value, within, Arithmetic, Tensor, World,
};
use crate::ops;
use crate::ops::{apply, leaf, linear, pair, reshape, scan_state};
use crate::pass::Step;
use crate::state_space;
use crate::state_space::{last_inputs, rms_norm_gated, StateSpaceWeights};
use crate::value_shapes::matches_shapes;
use std::rc::Rc;
use vstd::prelude::*;

verus! {

/// What a row that is scaled to a mean square of one is scaled by.
pub open spec fn row_scale<E>(row: Seq<E>, eps: FloatSetting, a: Arithmetic<E>) -> E {
    let squares = row.map_values(|e: E| (a.apply)(SameShape::Sqr, e));
    let mean = (a.plus)((a.mean)(squares), Scalar::Epsilon(eps));
    (a.apply)(SameShape::Recip, (a.apply)(SameShape::Sqrt, mean))
}

/// A row of the gated norm, from a row of answers of the format `f`, one of gates of the format `g`,
/// and the weights.
pub open spec fn gated_row<E>(
    x: Seq<E>,
    f: int,
    gate: Seq<E>,
    g: int,
    w: Seq<E>,
    eps: FloatSetting,
    a: Arithmetic<E>,
) -> Seq<E> {
    let s = x.map_values(|e: E| in_format(e, f, a.single, a));
    let scale = row_scale(s, eps, a);
    Seq::new(
        x.len(),
        |j: int|
            in_format(
                (a.pair)(
                    Pairwise::BroadcastMul,
                    (a.pair)(
                        Pairwise::BroadcastMul,
                        (a.pair)(Pairwise::BroadcastMul, s[j], scale),
                        w[j],
                    ),
                    (a.apply)(SameShape::Silu, in_format(gate[j], g, a.single, a)),
                ),
                a.single,
                f,
                a,
            ),
    )
}

/// Broadcasting to two dimensions: one number for each row, one for each column, one for each element.
pub proof fn lemma_broadcast2(n: nat, w: nat)
    ensures
        graph::broadcast(seq![n, w], seq![n, 1]) == Some(seq![n, w]),
        graph::broadcast(seq![n, w], seq![w]) == Some(seq![n, w]),
        graph::broadcast(seq![n, w], seq![n, w]) == Some(seq![n, w]),
{
    let d = seq![n, w];
    let (x, y) = (seq![n, 1], seq![w]);
    assert(forall|k: int| 0 <= k < 2 ==> graph::aligned(d, 2, k) == d[k]);
    assert(forall|k: int| 0 <= k < 2 ==> graph::aligned(x, 2, k) == x[k]);
    assert(graph::aligned(y, 2, 0) == 1 && graph::aligned(y, 2, 1) == w);
    assert(graph::broadcast(d, x)->0 =~= d);
    assert(graph::broadcast(d, y)->0 =~= d);
    assert(graph::broadcast(d, d)->0 =~= d);
}

/// What the norm of rows computes.
pub proof fn lemma_norm_row<E>(
    x: Rc<Node>,
    eps: FloatSetting,
    env: World<E>,
    n: nat,
    w: nat,
    r: int,
    j: int,
)
    requires
        value(&x, env).shape == seq![n, w],
        0 <= r < n,
        0 <= j < w,
    ensures
        ({
            let a = env.arithmetic;
            let t = value(&x, env);
            let u = value(&mean_square_norm(&x, eps), env);
            &&& u.shape == seq![n, w]
            &&& u.format == t.format
            &&& (u.at)(seq![r, j]) == (a.pair)(
                Pairwise::BroadcastMul,
                (t.at)(seq![r, j]),
                row_scale(line(t, 1, seq![r, 0]), eps, a),
            )
        }),
{
    broadcast use meaning::group_value;

    let a = env.arithmetic;
    let t = value(&x, env);
    let sqr = |e: E| (a.apply)(SameShape::Sqr, e);
    let plus = |e: E| (a.plus)(e, Scalar::Epsilon(eps));
    let root = |e: E| (a.apply)(SameShape::Sqrt, e);
    let inverse = |e: E| (a.apply)(SameShape::Recip, e);
    let squares = mapped(t, sqr);
    let means = by_row(squares, a.mean);
    assert(means.shape =~= seq![n, 1]);
    let scales = mapped(mapped(mapped(means, plus), root), inverse);
    let mul = |p: E, q: E| (a.pair)(Pairwise::BroadcastMul, p, q);
    lemma_broadcast2(n, w);
    assert(value(&mean_square_norm(&x, eps), env) == broadcasted(t, scales, mul));
    let idx = seq![r, j];
    assert(within(t.shape, idx));
    meaning::lemma_clipped(t.shape, idx);
    let first = seq![r, 0];
    assert(clipped(scales.shape, idx) =~= first);
    assert(within(scales.shape, first));
    let row = line(t, 1, first);
    assert(line(squares, 1, first) =~= row.map_values(sqr)) by {
        assert forall|k: int| 0 <= k < w implies #[trigger] line(squares, 1, first)[k]
            == row.map_values(sqr)[k] by {
            assert(within(t.shape, first.update(1, k)));
        }
    }
}

/// What the gated norm of rows computes.
proof fn lemma_gated_row<E>(
    x: Rc<Node>,
    gate: Rc<Node>,
    eps: FloatSetting,
    env: World<E>,
    n: nat,
    w: nat,
    r: int,
    j: int,
)
    requires
        value(&x, env).shape == seq![n, w],
        value(&gate, env).shape == seq![n, w],
        (env.leaf)(Slot::GatedNorm).shape == seq![w],
        0 <= r < n,
        0 <= j < w,
    ensures
        ({
            let u = value(&rms_norm_gated(&x, &gate, eps), env);
            let (t, g) = (value(&x, env), value(&gate, env));
            &&& u.shape == seq![n, w]
            &&& u.format == t.format
            &&& (u.at)(seq![r, j]) == gated_row(
                line(t, 1, seq![r, 0]),
                t.format,
                line(g, 1, seq![r, 0]),
                g.format,
                line((env.leaf)(Slot::GatedNorm), 0, seq![0]),
                eps,
                env.arithmetic,
            )[j]
        }),
{
    broadcast use meaning::group_value;

    let a = env.arithmetic;
    let (t, g) = (value(&x, env), value(&gate, env));
    let weight = (env.leaf)(Slot::GatedNorm);
    let wide = apply(SameShape::Single, &x);
    let s = formatted(t, a.single, a);
    lemma_norm_row(wide, eps, env, n, w, r, j);
    let normed = value(&mean_square_norm(&wide, eps), env);
    let mul = |p: E, q: E| (a.pair)(Pairwise::BroadcastMul, p, q);
    let silu = |e: E| (a.apply)(SameShape::Silu, e);
    let shown = mapped(formatted(g, a.single, a), silu);
    lemma_broadcast2(n, w);
    let weighted = broadcasted(normed, weight, mul);
    let product = broadcasted(weighted, shown, mul);
    assert(value(&rms_norm_gated(&x, &gate, eps), env) == formatted(product, t.format, a));
    let idx = seq![r, j];
    let first = seq![r, 0];
    assert(within(t.shape, idx));
    meaning::lemma_clipped(t.shape, idx);
    assert(clipped(weight.shape, idx) =~= seq![j]);
    let w_row = line(weight, 0, seq![0]);
    assert(seq![0int].update(0, j) =~= seq![j]);
    assert(w_row[j] == (weight.at)(seq![j]));
    let row = line(t, 1, first);
    let gate_row = line(g, 1, first);
    assert(first.update(1, j) =~= idx);
    let cast = |e: E| in_format(e, t.format, a.single, a);
    assert(line(s, 1, first) =~= row.map_values(cast)) by {
        assert forall|k: int| 0 <= k < w implies #[trigger] line(s, 1, first)[k]
            == row.map_values(cast)[k] by {
            assert(within(t.shape, first.update(1, k)));
        }
    }
    assert((s.at)(idx) == row.map_values(cast)[j]);
    assert(gate_row[j] == (g.at)(idx));
}

/// Answers and gates as rows, through the gated norm, and the heads of a position joined again.
pub open spec fn joined_rows(
    x: &Rc<Node>,
    gate: &Rc<Node>,
    eps: FloatSetting,
    b: usize,
    s: usize,
    vw: usize,
    width: usize,
) -> Rc<Node> {
    reshape(
        &rms_norm_gated(
            &reshape(x, Dims::HoleOne(vw)),
            &reshape(gate, Dims::HoleOne(vw)),
            eps,
        ),
        Dims::Three(b, s, width),
    )
}

/// Making rows of the last dimension flattens the others.
pub proof fn lemma_rows<E>(t: Tensor<E>, vw: usize)
    requires
        t.shape.len() == 4,
        t.shape[3] == vw,
        vw > 0,
    ensures
        reshaped(t, Dims::HoleOne(vw).filled(graph::elements(t.shape))->0) == flattened(t),
        flattened(t).shape == seq![graph::elements(t.shape.take(3)), vw as nat],
{
    let n = graph::elements(t.shape.take(3));
    let w = vw as nat;
    assert(t.shape.drop_last() =~= t.shape.take(3));
    assert((n * w) % w == 0 && (n * w) / w == n) by (nonlinear_arith)
        requires
            w > 0,
    ;
    assert(t.shape.skip(3) =~= seq![w]);
    assert(Dims::HoleOne(vw).filled(graph::elements(t.shape))->0 =~= seq![n] + t.shape.skip(3));
    assert(flattened(t).shape =~= seq![n, w]);
}

/// What [`joined_rows`] computes: each head of each position from its own row of answers and gates.
pub proof fn lemma_joined_rows<E>(
    x: Rc<Node>,
    gate: Rc<Node>,
    eps: FloatSetting,
    env: World<E>,
    b: usize,
    s: usize,
    h: nat,
    vw: usize,
    width: usize,
    idx: Seq<int>,
)
    requires
        vw > 0,
        width == h * vw,
        value(&x, env).shape == seq![b as nat, s as nat, h, vw as nat],
        value(&gate, env).shape == seq![b as nat, s as nat, h, vw as nat],
        (env.leaf)(Slot::GatedNorm).shape == seq![vw as nat],
        within(seq![b as nat, s as nat, width as nat], idx),
    ensures
        ({
            let u = value(&joined_rows(&x, &gate, eps, b, s, vw, width), env);
            let (t, g) = (value(&x, env), value(&gate, env));
            let from = seq![idx[0], idx[1], idx[2] / vw as int, idx[2] % vw as int];
            &&& u.shape == seq![b as nat, s as nat, width as nat]
            &&& u.format == t.format
            &&& within(t.shape, from)
            &&& (u.at)(idx) == gated_row(
                line(t, 3, from),
                t.format,
                line(g, 3, from),
                g.format,
                line((env.leaf)(Slot::GatedNorm), 0, seq![0]),
                eps,
                env.arithmetic,
            )[from[3]]
        }),
{
    let (t, g) = (value(&x, env), value(&gate, env));
    let w = vw as nat;
    let full = seq![b as nat, s as nat, h, w];
    let n = graph::elements(full.take(3));
    let (x2, g2) = (reshape(&x, Dims::HoleOne(vw)), reshape(&gate, Dims::HoleOne(vw)));
    assert(value(&x2, env) == flattened(t) && value(&g2, env) == flattened(g)) by {
        broadcast use meaning::group_value;

        lemma_rows(t, vw);
        lemma_rows(g, vw);
    }
    lemma_rows(t, vw);
    lemma_rows(g, vw);
    cache_laws::lemma_merged_place(b as nat, s as nat, h, w, idx);
    let k = idx[2];
    let from = seq![idx[0], idx[1], k / vw as int, k % vw as int];
    causal_laws::lemma_offset_split(b as nat, s as nat, h, w, from);
    let i = vw as int;
    assert((k / i) * i + k % i == k) by (nonlinear_arith)
        requires
            i > 0,
    ;
    assert(seq![from[0], from[1], from[2] * w + from[3]] =~= idx);
    causal_laws::lemma_flat_row(t, from);
    let r = offset(full.take(3), from.take(3));
    let rows = rms_norm_gated(&x2, &g2, eps);
    assert(0 <= r < n && 0 <= from[3] < w) by {
        let to = seq![r, from[3]];
        assert(within(seq![n, w], to));
        assert(0 <= to[0] < seq![n, w][0] && 0 <= to[1] < seq![n, w][1]);
    }
    lemma_gated_row(x2, g2, eps, env, n, w, r, from[3]);
    lemma_flat_line(t, from);
    lemma_flat_line(g, from);
    broadcast use meaning::group_value;

    assert(value(&joined_rows(&x, &gate, eps, b, s, vw, width), env) == reshaped(
        value(&rows, env),
        seq![b as nat, s as nat, width as nat],
    ));
}

/// A row of the flattened tensor is a row of the tensor.
pub proof fn lemma_flat_line<E>(t: Tensor<E>, idx: Seq<int>)
    requires
        t.shape.len() == 4,
        within(t.shape, idx),
    ensures
        line(flattened(t), 1, seq![offset(t.shape.take(3), idx.take(3)), 0]) == line(t, 3, idx),
{
    let flat = flattened(t);
    let r = offset(t.shape.take(3), idx.take(3));
    let first = seq![r, 0];
    causal_laws::lemma_flat_row(t, idx);
    assert(t.shape.skip(3) =~= seq![t.shape[3]]);
    assert(flat.shape =~= seq![graph::elements(t.shape.take(3)), t.shape[3]]);
    let (x, y) = (line(flat, 1, first), line(t, 3, idx));
    assert forall|k: int| 0 <= k < t.shape[3] implies #[trigger] x[k] == y[k] by {
        let j = idx.update(3, k);
        assert(within(t.shape, j));
        causal_laws::lemma_flat_row(t, j);
        assert(j.take(3) =~= idx.take(3));
        assert(first.update(1, k) =~= seq![r, k]);
    }
    assert(x =~= y);
}

/// The same as [`takes`], through the gated norm.
proof fn lemma_takes_rows<E>(
    x1: Rc<Node>,
    gate1: Rc<Node>,
    e1: World<E>,
    x: Rc<Node>,
    gate: Rc<Node>,
    e: World<E>,
    eps: FloatSetting,
    b: usize,
    s: usize,
    n: usize,
    h: nat,
    vw: usize,
    width: usize,
    off: int,
)
    requires
        same_model(e1, e),
        vw > 0,
        s > 0,
        b > 0,
        width > 0,
        width == h * vw,
        takes(x1, e1, x, e, seq![b as nat, n as nat, h, vw as nat], 1, off, s as nat),
        takes(gate1, e1, gate, e, seq![b as nat, n as nat, h, vw as nat], 1, off, s as nat),
        (e.leaf)(Slot::GatedNorm).shape == seq![vw as nat],
    ensures
        takes(
            joined_rows(&x1, &gate1, eps, b, s, vw, width),
            e1,
            joined_rows(&x, &gate, eps, b, n, vw, width),
            e,
            seq![b as nat, n as nat, width as nat],
            1,
            off,
            s as nat,
        ),
{
    let full = seq![b as nat, n as nat, h, vw as nat];
    let full1 = seq![b as nat, s as nat, h, vw as nat];
    assert(full.update(1, s as nat) =~= full1);
    let three = seq![b as nat, n as nat, width as nat];
    let three1 = seq![b as nat, s as nat, width as nat];
    assert(three.update(1, s as nat) =~= three1);
    let (t1, t) = (value(&x1, e1), value(&x, e));
    let (g1, g) = (value(&gate1, e1), value(&gate, e));
    let l = value(&joined_rows(&x1, &gate1, eps, b, s, vw, width), e1);
    let r = value(&joined_rows(&x, &gate, eps, b, n, vw, width), e);
    let origin = seq![0int, 0, 0];
    assert(within(three1, origin) && within(three, origin));
    lemma_joined_rows(x1, gate1, eps, e1, b, s, h, vw, width, origin);
    lemma_joined_rows(x, gate, eps, e, b, n, h, vw, width, origin);
    assert forall|idx: Seq<int>| #[trigger] within(l.shape, idx) implies (l.at)(idx) == (r.at)(
        idx.update(1, idx[1] + off),
    ) by {
        let to = idx.update(1, idx[1] + off);
        cache_laws::lemma_within_part(three1, three, 1, off, idx);
        lemma_joined_rows(x1, gate1, eps, e1, b, s, h, vw, width, idx);
        lemma_joined_rows(x, gate, eps, e, b, n, h, vw, width, to);
        let k = vw as int;
        let from = seq![idx[0], idx[1], idx[2] / k, idx[2] % k];
        assert(from.update(1, from[1] + off) =~= seq![to[0], to[1], to[2] / k, to[2] % k]);
        assert forall|j: int| 0 <= j < from.len() - 1 implies 0 <= #[trigger] from[j]
            < t1.shape[j] by {}
        cache_laws::lemma_line(t1, t, 1, off, from);
        cache_laws::lemma_line(g1, g, 1, off, from);
    }
}

/// A part that holds nothing beyond its shape is what narrowing gives.
pub proof fn lemma_is_narrowed<E>(a: Tensor<E>, b: Tensor<E>, dim: int, off: int)
    requires
        part(a, b, dim, off),
        a.regular(),
    ensures
        a == narrowed(b, dim, off, a.shape[dim]),
{
    let r = narrowed(b, dim, off, a.shape[dim]);
    meaning::lemma_equal(a, r);
}

/// Two parts of one tensor, the first of them its beginning.
pub proof fn lemma_parts<E>(t: Tensor<E>, dim: int, off: int, len: nat, n: nat)
    requires
        0 <= dim < t.shape.len(),
        0 <= off,
        off + len <= n,
    ensures
        part(narrowed(t, dim, off, len), narrowed(t, dim, 0, n), dim, off),
{
    let (l, r) = (narrowed(t, dim, off, len), narrowed(t, dim, 0, n));
    assert(l.shape =~= r.shape.update(dim, len));
    assert forall|idx: Seq<int>| #[trigger] within(l.shape, idx) implies (l.at)(idx) == (r.at)(
        idx.update(dim, idx[dim] + off),
    ) by {
        cache_laws::lemma_within_part(l.shape, r.shape, dim, off, idx);
        let to = idx.update(dim, idx[dim] + off);
        assert(to.update(dim, to[dim] + 0) =~= to);
    }
}

/// Joined tensors have what was joined as parts.
pub proof fn lemma_joined_parts<E>(a: Tensor<E>, b: Tensor<E>, dim: int)
    requires
        0 <= dim < a.shape.len(),
        a.shape.len() == b.shape.len(),
        b.shape == a.shape.update(dim, b.shape[dim]),
        a.format == b.format,
    ensures
        part(a, joined(a, b, dim), dim, 0),
        part(b, joined(a, b, dim), dim, a.shape[dim] as int),
{
    let c = joined(a, b, dim);
    assert(a.shape =~= c.shape.update(dim, a.shape[dim]));
    assert(b.shape =~= c.shape.update(dim, b.shape[dim]));
    assert forall|idx: Seq<int>| #[trigger] within(a.shape, idx) implies (a.at)(idx) == (c.at)(
        idx.update(dim, idx[dim] + 0),
    ) by {
        assert(idx.update(dim, idx[dim] + 0) =~= idx);
        cache_laws::lemma_within_part(a.shape, c.shape, dim, 0, idx);
    }
    assert forall|idx: Seq<int>| #[trigger] within(b.shape, idx) implies (b.at)(idx) == (c.at)(
        idx.update(dim, idx[dim] + a.shape[dim]),
    ) by {
        cache_laws::lemma_within_part(b.shape, c.shape, dim, a.shape[dim] as int, idx);
        let to = idx.update(dim, idx[dim] + a.shape[dim]);
        assert(to.update(dim, to[dim] - a.shape[dim]) =~= idx);
    }
}

/// Heads of a part of the channels.
proof fn lemma_takes_channels<E>(
    x1: Rc<Node>,
    e1: World<E>,
    x: Rc<Node>,
    e: World<E>,
    start: usize,
    count: usize,
    b: usize,
    s: usize,
    n: usize,
    h: usize,
    d: usize,
    c: nat,
    off: int,
)
    requires
        takes(x1, e1, x, e, seq![b as nat, n as nat, c], 1, off, s as nat),
        count == h * d,
        start + count <= c,
    ensures
        takes(
            reshape(&ops::narrow(&x1, 2, start, count), Dims::Four(b, s, h, d)),
            e1,
            reshape(&ops::narrow(&x, 2, start, count), Dims::Four(b, n, h, d)),
            e,
            seq![b as nat, n as nat, h as nat, d as nat],
            1,
            off,
            s as nat,
        ),
        value(&reshape(&ops::narrow(&x1, 2, start, count), Dims::Four(b, s, h, d)), e1).regular(),
{
    broadcast use meaning::group_value;

    let (y1, y) = (value(&x1, e1), value(&x, e));
    cache_laws::lemma_narrowed(y1, y, 1, off, 2, start as int, count as nat);
    let (z1, z) = (
        narrowed(y1, 2, start as int, count as nat),
        narrowed(y, 2, start as int, count as nat),
    );
    assert(z1.shape =~= seq![b as nat, s as nat, (h * d) as nat]);
    assert(z.shape =~= seq![b as nat, n as nat, (h * d) as nat]);
    cache_laws::lemma_split(z1, z, b as nat, s as nat, n as nat, h as nat, d as nat, off);
    assert(seq![b as nat, n as nat, h as nat, d as nat].update(1, s as nat) =~= seq![
        b as nat,
        s as nat,
        h as nat,
        d as nat,
    ]);
}

/// A linear map.
pub proof fn lemma_takes_linear<E>(
    map: Projection,
    x: Rc<Node>,
    e1: World<E>,
    e: World<E>,
    b: nat,
    n: nat,
    from: nat,
    to: nat,
    off: int,
    len: nat,
)
    requires
        same_model(e1, e),
        takes(x, e1, x, e, seq![b, n, from], 1, off, len),
        (e.arithmetic.width)(map) == to,
    ensures
        takes(
            linear(map, &apply(SameShape::Contiguous, &x)),
            e1,
            linear(map, &apply(SameShape::Contiguous, &x)),
            e,
            seq![b, n, to],
            1,
            off,
            len,
        ),
        value(&linear(map, &apply(SameShape::Contiguous, &x)), e1).regular(),
{
    broadcast use meaning::group_value;

    let a = e.arithmetic;
    let (x1, x0) = (value(&x, e1), value(&x, e));
    let f = |row: Seq<E>| (a.linear)(map, row);
    cache_laws::lemma_by_rows(x1, x0, 1, off, to, f);
    assert(by_rows(x0, to, f).shape =~= seq![b, n, to]);
    assert(by_rows(x1, to, f).shape =~= seq![b, n, to].update(1, len));
}

/// The decay: `softplus(x + dt_bias) * a`.
proof fn lemma_takes_decay<E>(
    x: Rc<Node>,
    e1: World<E>,
    e: World<E>,
    b: nat,
    n: nat,
    h: nat,
    off: int,
    len: nat,
)
    requires
        same_model(e1, e),
        takes(x, e1, x, e, seq![b, n, h], 1, off, len),
        (e.leaf)(Slot::DtBias).shape == seq![h],
        (e.leaf)(Slot::NegativeDecay).shape == seq![h],
    ensures
        takes(
            pair(Pairwise::BroadcastMul, &softplus(&x), &leaf(Slot::NegativeDecay)),
            e1,
            pair(Pairwise::BroadcastMul, &softplus(&x), &leaf(Slot::NegativeDecay)),
            e,
            seq![b, n, h],
            1,
            off,
            len,
        ),
        value(
            &pair(Pairwise::BroadcastMul, &softplus(&x), &leaf(Slot::NegativeDecay)),
            e1,
        ).regular(),
{
    broadcast use meaning::group_value;

    let a = e.arithmetic;
    let (x1, x0) = (value(&x, e1), value(&x, e));
    cache_laws::lemma_formatted(x1, x0, 1, off, a.single, a);
    let (s1, s0) = (formatted(x1, a.single, a), formatted(x0, a.single, a));
    let add = |p: E, q: E| (a.pair)(Pairwise::BroadcastAdd, p, q);
    let mul = |p: E, q: E| (a.pair)(Pairwise::BroadcastMul, p, q);
    let exp = |e: E| (a.apply)(SameShape::Exp, e);
    let one = |e: E| (a.plus)(e, Scalar::One);
    let log = |e: E| (a.apply)(SameShape::Log, e);
    let (bias, decay) = ((e.leaf)(Slot::DtBias), (e.leaf)(Slot::NegativeDecay));
    cache_laws::lemma_biased(s1, s0, bias, off, add);
    let (b1, b0) = (broadcasted(s1, bias, add), broadcasted(s0, bias, add));
    cache_laws::lemma_mapped(b1, b0, 1, off, exp);
    let (c1, c0) = (mapped(b1, exp), mapped(b0, exp));
    cache_laws::lemma_mapped(c1, c0, 1, off, one);
    let (d1, d0) = (mapped(c1, one), mapped(c0, one));
    cache_laws::lemma_mapped(d1, d0, 1, off, log);
    cache_laws::lemma_biased(mapped(d1, log), mapped(d0, log), decay, off, mul);
    assert(value(&softplus(&x), e1) == mapped(d1, log));
    assert(value(&softplus(&x), e) == mapped(d0, log));
}

/// The layer with states.
pub open spec fn with_states(w: StateSpaceWeights) -> StateSpaceWeights {
    StateSpaceWeights { primed: true, ..w }
}

/// The dimensions of the layer's convolution.
pub open spec fn conv_dims(w: StateSpaceWeights, batch: usize) -> ConvDims {
    ConvDims { batch, channels: w.conv_dim, kernel: w.conv_kernel_size }
}

/// What the layer has to be, and the tensors and the input of a whole pass.
pub open spec fn runs<E>(
    w: StateSpaceWeights,
    x: Rc<Node>,
    whole: Step,
    e: World<E>,
    known: graph::Shapes,
    hidden: nat,
) -> bool {
    &&& w.well_formed()
    &&& w.conv_kernel_size >= 1
    &&& w.head_v_dim > 0
    &&& !w.primed
    &&& whole.batch > 0
    &&& w.described_by(known, whole, hidden)
    &&& matches_shapes(e, known)
    &&& graph::closed(&x)
    &&& value(&x, e).shape == seq![whole.batch as nat, whole.len as nat, hidden]
}

/// The channels of a piece before the convolution.
proof fn lemma_mixed<E>(
    w: StateSpaceWeights,
    x: Rc<Node>,
    piece: Step,
    e1: World<E>,
    whole: Step,
    e: World<E>,
    known: graph::Shapes,
    hidden: nat,
)
    requires
        runs(w, x, whole, e, known, hidden),
        is_piece(x, piece, e1, whole, e, hidden),
    ensures
        value(&w.mixed(x), e).shape == seq![
            whole.batch as nat,
            w.conv_dim as nat,
            whole.len as nat,
        ],
        value(&w.mixed(x), e1) == narrowed(
            value(&w.mixed(x), e),
            2,
            piece.offset as int,
            piece.len as nat,
        ),
        value(&w.mixed(x), e1).format == value(&w.mixed(x), e).format,
{
    broadcast use meaning::group_value;

    let (b, n, c) = (whole.batch as nat, whole.len as nat, w.conv_dim as nat);
    let (off, len) = (piece.offset as int, piece.len as nat);
    assert((known.linear)(Projection::MixedQkv) is Some);
    lemma_takes_linear(Projection::MixedQkv, x, e1, e, b, n, hidden, c, off, len);
    let map = linear(Projection::MixedQkv, &apply(SameShape::Contiguous, &x));
    let (y1, y) = (value(&map, e1), value(&map, e));
    cache_laws::lemma_transposed(y1, y, 1, off);
    let (z1, z) = (transposed(y1, 1, 2), transposed(y, 1, 2));
    assert(z.shape =~= seq![b, c, n]);
    assert(z1.shape =~= seq![b, c, len]);
    lemma_is_narrowed(z1, z, 2, off);
}

/// The convolution of the first positions, and the state that it leaves.
proof fn lemma_conv_first<E>(
    w: StateSpaceWeights,
    x: Rc<Node>,
    piece: Step,
    e1: World<E>,
    whole: Step,
    e: World<E>,
    known: graph::Shapes,
    hidden: nat,
)
    requires
        runs(w, x, whole, e, known, hidden),
        is_piece(x, piece, e1, whole, e, hidden),
        piece.offset == 0,
        0 < piece.len,
    ensures
        ({
            let dims = conv_dims(w, whole.batch);
            let all = value(&w.mixed(x), e);
            let pad = (w.conv_kernel_size - 1) as usize;
            &&& value(&w.convolution(x, piece), e1) == transposed(
                narrowed(all_outputs(false, e, dims, all), 2, 0, piece.len as nat),
                1,
                2,
            )
            &&& value(&last_inputs(&w.conv_input(x, piece), false, piece.len, pad), e1)
                == narrowed(behind_zeros(e, dims, all), 2, piece.len as int, pad as nat)
        }),
{
    broadcast use {meaning::group_value, graph::group_closed};

    let dims = conv_dims(w, whole.batch);
    let all = value(&w.mixed(x), e);
    let pad = (w.conv_kernel_size - 1) as usize;
    let len = piece.len;
    lemma_mixed(w, x, piece, e1, whole, e, known, hidden);
    let first = value(&w.mixed(x), e1);
    let input = w.conv_input(x, piece);
    let z = behind_zeros(e, dims, all);
    assert((known.leaf)(Slot::ConvWeight) is Some);
    assert(conv_laws::fits(false, e, dims, all));
    conv_laws::lemma_behind_zeros(e, dims, all, len as nat, 0, 0);
    assert(value(&input, e1) == behind_zeros(e, dims, first));
    conv_laws::lemma_part_of_outputs(false, e, dims, all, input, e1, 0, len);
    meaning::lemma_part_of_part(z, 2, 0, (len + pad) as nat, len as int, pad as nat);
}

/// The convolution of one more position, and the state that it leaves.
proof fn lemma_conv_next<E>(
    w: StateSpaceWeights,
    x: Rc<Node>,
    piece: Step,
    e2: World<E>,
    whole: Step,
    e: World<E>,
    known: graph::Shapes,
    hidden: nat,
)
    requires
        runs(w, x, whole, e, known, hidden),
        is_piece(x, piece, e2, whole, e, hidden),
        piece.len == 1,
        (e2.leaf)(Slot::ConvState) == narrowed(
            behind_zeros(e, conv_dims(w, whole.batch), value(&w.mixed(x), e)),
            2,
            piece.offset as int,
            (w.conv_kernel_size - 1) as nat,
        ),
    ensures
        ({
            let c = with_states(w);
            let dims = conv_dims(w, whole.batch);
            let all = value(&w.mixed(x), e);
            let pad = (w.conv_kernel_size - 1) as usize;
            &&& value(&c.convolution(x, piece), e2) == transposed(
                narrowed(all_outputs(false, e, dims, all), 2, piece.offset as int, 1),
                1,
                2,
            )
            &&& value(&last_inputs(&c.conv_input(x, piece), true, 1, pad), e2) == narrowed(
                behind_zeros(e, dims, all),
                2,
                piece.offset + 1,
                pad as nat,
            )
        }),
{
    broadcast use {meaning::group_value, graph::group_closed};

    let c = with_states(w);
    let dims = conv_dims(w, whole.batch);
    let all = value(&w.mixed(x), e);
    let pad = (w.conv_kernel_size - 1) as usize;
    let m = piece.offset as int;
    lemma_mixed(w, x, piece, e2, whole, e, known, hidden);
    let column = value(&w.mixed(x), e2);
    let input = c.conv_input(x, piece);
    let z = behind_zeros(e, dims, all);
    assert((known.leaf)(Slot::ConvWeight) is Some);
    assert(conv_laws::fits(false, e, dims, all));
    conv_laws::lemma_behind_zeros(e, dims, all, 0, m, 1);
    conv_laws::lemma_joined_parts(z, m, pad as nat, 1);
    assert(c.mixed(x) == w.mixed(x));
    assert(value(&input, e2) == joined((e2.leaf)(Slot::ConvState), column, 2));
    conv_laws::lemma_part_of_outputs(false, e, dims, all, input, e2, m, 1);
    meaning::lemma_part_of_part(z, 2, m, pad as nat + 1, 1, pad as nat);
}

/// The inputs of the delta rule on a piece are those of the whole, where the convolution's are.
proof fn lemma_inputs<E>(
    w1: StateSpaceWeights,
    w: StateSpaceWeights,
    x: Rc<Node>,
    piece: Step,
    e1: World<E>,
    whole: Step,
    e: World<E>,
    known: graph::Shapes,
    hidden: nat,
)
    requires
        runs(w, x, whole, e, known, hidden),
        w1 == w || w1 == with_states(w),
        is_piece(x, piece, e1, whole, e, hidden),
        0 < piece.len,
        0 < whole.len,
        ({
            let all = all_outputs(
                false,
                e,
                conv_dims(w, whole.batch),
                value(&w.mixed(x), e),
            );
            value(&w1.convolution(x, piece), e1) == transposed(
                narrowed(all, 2, piece.offset as int, piece.len as nat),
                1,
                2,
            )
        }),
    ensures
        delta_laws::is_part(
            &w1.delta_inputs(x, piece),
            e1,
            &w.delta_inputs(x, whole),
            e,
            piece.offset as int,
            piece.len as nat,
        ),
        delta_laws::are_closed(&w1.delta_inputs(x, piece)),
        delta_laws::have_dims(&w.delta_inputs(x, whole), e, w.delta_dims(whole)),
{
    let (b, n, s) = (whole.batch, whole.len, piece.len);
    let (bn, nn, sn) = (b as nat, n as nat, s as nat);
    let off = piece.offset as int;
    let c = w.conv_dim as nat;
    let hidden_states = apply(SameShape::Contiguous, &x);
    let dims = conv_dims(w, b);
    let mixed = value(&w.mixed(x), e);
    let all = all_outputs(false, e, dims, mixed);
    assert((known.leaf)(Slot::ConvWeight) is Some);
    lemma_own_piece(x, whole, e, hidden);
    lemma_conv_first(w, x, Step { offset: 0, ..whole }, e, whole, e, known, hidden);
    assert(Step { offset: 0, ..whole } == whole);
    let (q1, q0) = (w1.convolution(x, piece), w.convolution(x, whole));
    assert(takes(q1, e1, q0, e, seq![bn, nn, c], 1, off, sn)) by {
        lemma_mixed(w, x, whole, e, whole, e, known, hidden);
        conv_laws::lemma_behind_zeros(e, dims, mixed, 0, 0, 0);
        conv_laws::lemma_outputs_of_part(
            false,
            behind_zeros(e, dims, mixed),
            (e.leaf)(Slot::ConvWeight),
            bn,
            c,
            w.conv_kernel_size as nat,
            nn,
            0,
            nn,
            e.arithmetic,
        );
        assert(all.shape == seq![bn, c, nn]);
        lemma_parts(all, 2, off, sn, nn);
        let (y1, y) = (narrowed(all, 2, off, sn), narrowed(all, 2, 0, nn));
        cache_laws::lemma_transposed(y1, y, 2, off);
        assert(transposed(y, 1, 2).shape =~= seq![bn, nn, c]);
        assert(transposed(y1, 1, 2).shape =~= seq![bn, nn, c].update(1, sn));
    }
    let (kd, vd) = (w.key_dim, w.value_dim);
    let (h, kw, vw) = (w.num_v_heads, w.head_k_dim, w.head_v_dim);
    state_space::lemma_repeats(w);
    state_space::lemma_repeats(w1);
    lemma_takes_channels(q1, e1, q0, e, 0, kd, b, s, n, h, kw, c, off);
    lemma_takes_channels(q1, e1, q0, e, kd, kd, b, s, n, h, kw, c, off);
    let twice = (kd * 2) as usize;
    lemma_takes_channels(q1, e1, q0, e, twice, vd, b, s, n, h, vw, c, off);
    assert((known.linear)(Projection::Alpha) is Some && (known.linear)(Projection::Beta) is Some);
    assert((known.leaf)(Slot::DtBias) is Some && (known.leaf)(Slot::NegativeDecay) is Some);
    let hn = h as nat;
    lemma_takes_linear(Projection::Alpha, x, e1, e, bn, nn, hidden, hn, off, sn);
    lemma_takes_linear(Projection::Beta, x, e1, e, bn, nn, hidden, hn, off, sn);
    let alpha = linear(Projection::Alpha, &hidden_states);
    let beta = linear(Projection::Beta, &hidden_states);
    lemma_takes_decay(alpha, e1, e, bn, nn, hn, off, sn);
    let gate = apply(SameShape::Sigmoid, &beta);
    assert(takes(gate, e1, gate, e, seq![bn, nn, hn], 1, off, sn) && value(
        &gate,
        e1,
    ).regular()) by {
        broadcast use meaning::group_value;

        let f = |e: E| (e1.arithmetic.apply)(SameShape::Sigmoid, e);
        cache_laws::lemma_mapped(value(&beta, e1), value(&beta, e), 1, off, f);
    }
    let (i1, i0) = (w1.delta_inputs(x, piece), w.delta_inputs(x, whole));
    lemma_is_narrowed(value(&i1.query, e1), value(&i0.query, e), 1, off);
    lemma_is_narrowed(value(&i1.key, e1), value(&i0.key, e), 1, off);
    lemma_is_narrowed(value(&i1.value, e1), value(&i0.value, e), 1, off);
    lemma_is_narrowed(value(&i1.decay, e1), value(&i0.decay, e), 1, off);
    lemma_is_narrowed(value(&i1.beta, e1), value(&i0.beta, e), 1, off);
    assert(delta_laws::are_closed(&i1)) by {
        broadcast use graph::group_closed;

    }
}

/// A pass is a piece of itself.
pub proof fn lemma_own_piece<E>(x: Rc<Node>, whole: Step, e: World<E>, hidden: nat)
    requires
        whole.offset == 0,
        value(&x, e).shape == seq![whole.batch as nat, whole.len as nat, hidden],
    ensures
        is_piece(x, whole, e, whole, e, hidden),
{
    let t = value(&x, e);
    assert(t.shape.update(1, whole.len as nat) =~= t.shape);
    assert forall|idx: Seq<int>| #[trigger] within(t.shape, idx) implies (t.at)(idx) == (t.at)(
        idx.update(1, idx[1] + 0),
    ) by {
        assert(idx.update(1, idx[1] + 0) =~= idx);
    }
}

/// The output of a piece is part of the output, where the answers of the rule are.
proof fn lemma_output<E>(
    w1: StateSpaceWeights,
    w: StateSpaceWeights,
    x: Rc<Node>,
    piece: Step,
    e1: World<E>,
    whole: Step,
    e: World<E>,
    known: graph::Shapes,
    hidden: nat,
)
    requires
        runs(w, x, whole, e, known, hidden),
        w1 == w || w1 == with_states(w),
        is_piece(x, piece, e1, whole, e, hidden),
        0 < piece.len,
        takes(
            answers(&w1.rule(x, piece)),
            e1,
            answers(&w.rule(x, whole)),
            e,
            seq![
                whole.batch as nat,
                whole.len as nat,
                w.num_v_heads as nat,
                w.head_v_dim as nat,
            ],
            1,
            piece.offset as int,
            piece.len as nat,
        ),
    ensures
        takes(
            w1.output(x, piece),
            e1,
            w.output(x, whole),
            e,
            seq![whole.batch as nat, whole.len as nat, hidden],
            1,
            piece.offset as int,
            piece.len as nat,
        ),
        value(&w.output(x, whole), e).regular(),
{
    let a = e.arithmetic;
    let (b, n, s) = (whole.batch, whole.len, piece.len);
    let (bn, nn, sn) = (b as nat, n as nat, s as nat);
    let off = piece.offset as int;
    let (h, vw, width) = (w.num_v_heads, w.head_v_dim, w.value_dim);
    let full = seq![bn, nn, h as nat, vw as nat];
    let states = apply(SameShape::Contiguous, &x);
    let (a1, a0) = (answers(&w1.rule(x, piece)), answers(&w.rule(x, whole)));
    let (r1, r0) = (
        pair(Pairwise::FormatOf, &a1, &states),
        pair(Pairwise::FormatOf, &a0, &states),
    );
    assert(takes(r1, e1, r0, e, full, 1, off, sn)) by {
        broadcast use meaning::group_value;

        let f = value(&x, e).format;
        cache_laws::lemma_formatted(value(&a1, e1), value(&a0, e), 1, off, f, a);
    }
    assert((known.linear)(Projection::MixerGate) is Some);
    assert((known.linear)(Projection::MixerOutput) is Some);
    assert((known.leaf)(Slot::GatedNorm) is Some);
    lemma_takes_linear(
        Projection::MixerGate,
        x,
        e1,
        e,
        bn,
        nn,
        hidden,
        width as nat,
        off,
        sn,
    );
    let z = linear(Projection::MixerGate, &states);
    cache_laws::lemma_takes_heads(z, e1, e, b, s, n, h, vw, off);
    let (g1, g0) = (reshape(&z, Dims::Four(b, s, h, vw)), reshape(&z, Dims::Four(b, n, h, vw)));
    assert(width > 0) by (nonlinear_arith)
        requires
            width == h * vw,
            h > 0,
            vw > 0,
    ;
    lemma_takes_rows(r1, g1, e1, r0, g0, e, w.norm_eps, b, s, n, h as nat, vw, width, off);
    let j1 = joined_rows(&r1, &g1, w.norm_eps, b, s, vw, width);
    let j0 = joined_rows(&r0, &g0, w.norm_eps, b, n, vw, width);
    assert(w1.output(x, piece) == linear(Projection::MixerOutput, &j1));
    assert(w.output(x, whole) == linear(Projection::MixerOutput, &j0));
    let f = |row: Seq<E>| (a.linear)(Projection::MixerOutput, row);
    cache_laws::lemma_by_rows(value(&j1, e1), value(&j0, e), 1, off, hidden, f);
    let three = seq![bn, nn, width as nat];
    assert(three.update(2, hidden) =~= seq![bn, nn, hidden]);
    assert(three.update(1, sn).update(2, hidden) =~= seq![bn, nn, hidden].update(1, sn));
    broadcast use meaning::group_value;

    assert(value(&w.output(x, whole), e).regular());
}

/// A recurrent layer of the quantized model continues from its states: after a pass over `m`
/// positions, a pass over one more from the states that it left gives, behind what the first pass
/// gave, what one pass over all `m + 1` positions gives. The states in the end are the same.
pub proof fn recurrence_continues_from_its_states<E>(
    w: StateSpaceWeights,
    x: Rc<Node>,
    batch: usize,
    m: usize,
    known: graph::Shapes,
    hidden: nat,
    e: World<E>,
    e1: World<E>,
    e2: World<E>,
)
    requires
        0 < m < usize::MAX,
        runs(w, x, whole_step(batch, m), e, known, hidden),
        is_piece(x, first_step(batch, m), e1, whole_step(batch, m), e, hidden),
        is_piece(x, next_step(batch, m), e2, whole_step(batch, m), e, hidden),
        (e2.leaf)(Slot::ConvState) == value(
            &last_inputs(
                &w.conv_input(x, first_step(batch, m)),
                false,
                m,
                (w.conv_kernel_size - 1) as usize,
            ),
            e1,
        ),
        (e2.leaf)(Slot::RecurrentState) == value(
            &scan_state(&w.rule(x, first_step(batch, m))),
            e1,
        ),
    ensures
        value(&w.output(x, whole_step(batch, m)), e) == joined(
            value(&w.output(x, first_step(batch, m)), e1),
            value(&with_states(w).output(x, next_step(batch, m)), e2),
            1,
        ),
        value(
            &last_inputs(
                &with_states(w).conv_input(x, next_step(batch, m)),
                true,
                1,
                (w.conv_kernel_size - 1) as usize,
            ),
            e2,
        ) == value(
            &last_inputs(
                &w.conv_input(x, whole_step(batch, m)),
                false,
                (m + 1) as usize,
                (w.conv_kernel_size - 1) as usize,
            ),
            e,
        ),
        value(&scan_state(&with_states(w).rule(x, next_step(batch, m))), e2) == value(
            &scan_state(&w.rule(x, whole_step(batch, m))),
            e,
        ),
{
    let (whole, first, next) = (whole_step(batch, m), first_step(batch, m), next_step(batch, m));
    let c = with_states(w);
    let n = (m + 1) as usize;
    lemma_own_piece(x, whole, e, hidden);
    lemma_conv_first(w, x, first, e1, whole, e, known, hidden);
    lemma_conv_first(w, x, whole, e, whole, e, known, hidden);
    lemma_conv_next(w, x, next, e2, whole, e, known, hidden);
    lemma_inputs(w, w, x, first, e1, whole, e, known, hidden);
    lemma_inputs(w, w, x, whole, e, whole, e, known, hidden);
    lemma_inputs(c, w, x, next, e2, whole, e, known, hidden);
    let dims = w.delta_dims(whole);
    let (i0, i1, i2) = (
        w.delta_inputs(x, whole),
        w.delta_inputs(x, first),
        c.delta_inputs(x, next),
    );
    delta_laws::delta_rule_in_two_pieces(&i0, e, &i1, e1, &i2, e2, dims, m, false);
    let (a0, a1, a2) = (
        answers(&w.rule(x, whole)),
        answers(&w.rule(x, first)),
        answers(&c.rule(x, next)),
    );
    let (t1, t2) = (value(&a1, e1), value(&a2, e2));
    assert(t2.shape =~= t1.shape.update(1, t2.shape[1]));
    lemma_joined_parts(t1, t2, 1);
    let full = seq![batch as nat, n as nat, w.num_v_heads as nat, w.head_v_dim as nat];
    assert(value(&a0, e).shape =~= full);
    assert(t1.shape =~= full.update(1, m as nat));
    assert(t2.shape =~= full.update(1, 1));
    lemma_output(w, w, x, first, e1, whole, e, known, hidden);
    lemma_output(c, w, x, next, e2, whole, e, known, hidden);
    cache_laws::lemma_joined(
        value(&w.output(x, first), e1),
        value(&c.output(x, next), e2),
        value(&w.output(x, whole), e),
        1,
    );
}

}
