//! What a position of the dense model sees under the causal mask.
use crate::attention::{for_each_query_head, scores};
use crate::blocks::mean_square_norm;
use crate::causal_laws;
use crate::causal_laws::{
    agree, all_finite, hides, in_format, is_causal, keeps, masked, same_weights, scored,
};
use crate::graph;
use crate::graph::{FloatSetting, Node, Pairwise, Projection, SameShape, Scalar, Slot};
use crate::meaning;
use crate::meaning::{
    broadcasted, by_row, clipped, expanded, formatted, joined, line, mapped, narrowed, reshaped,
    value, weighed, within, Tensor, World,
};
use crate::ops::{apply, linear, narrow, pair, transpose};
use crate::pass::Step;
use crate::qwen3_5;
use crate::qwen3_5::{
    behind, hiding_later, in_heads, mask_rows, normed, prepare_causal_attention_mask,
    AttentionState,
};
use crate::shapes;
use crate::value_shapes::matches_shapes;
use std::rc::Rc;
use vstd::prelude::*;

verus! {

/// One number for each row.
proof fn lemma_by_row<E>(
    a: Tensor<E>,
    b: Tensor<E>,
    dim: int,
    i: int,
    f: spec_fn(Seq<E>) -> E,
)
    requires
        agree(a, b, dim, i),
        dim < a.shape.len() - 1,
    ensures
        agree(by_row(a, f), by_row(b, f), dim, i),
{
    let last = a.shape.len() - 1;
    let (l, r) = (by_row(a, f), by_row(b, f));
    assert forall|idx: Seq<int>| #[trigger] within(l.shape, idx) && idx[dim] <= i implies (l.at)(
        idx,
    ) == (r.at)(idx) by {
        assert(line(a, last, idx) =~= line(b, last, idx)) by {
            assert forall|k: int| 0 <= k < a.shape[last] implies (a.at)(
                #[trigger] idx.update(last, k),
            ) == (b.at)(idx.update(last, k)) by {
                assert(within(a.shape, idx.update(last, k)));
            }
        }
    }
}

/// Rows and one number for each of them.
proof fn lemma_scaled_rows<E>(
    a: Tensor<E>,
    b: Tensor<E>,
    c: Tensor<E>,
    d: Tensor<E>,
    dim: int,
    i: int,
    f: spec_fn(E, E) -> E,
)
    requires
        agree(a, b, dim, i),
        agree(c, d, dim, i),
        a.shape.len() == 4,
        dim < 3,
        c.shape == a.shape.update(3, 1),
    ensures
        agree(broadcasted(a, c, f), broadcasted(b, d, f), dim, i),
        broadcasted(a, c, f).shape == a.shape,
        broadcasted(a, c, f).format == a.format,
{
    shapes::lemma_broadcast4(a.shape, c.shape);
    let (l, r) = (broadcasted(a, c, f), broadcasted(b, d, f));
    assert forall|idx: Seq<int>| #[trigger] within(l.shape, idx) && idx[dim] <= i implies (l.at)(
        idx,
    ) == (r.at)(idx) by {
        meaning::lemma_clipped(a.shape, idx);
    }
}

/// The norm of each head.
proof fn lemma_keeps_norm<E>(
    x: Rc<Node>,
    weight: Slot,
    eps: u64,
    e1: World<E>,
    e2: World<E>,
    d: Seq<nat>,
    dim: int,
    i: int,
)
    requires
        same_weights(e1, e2),
        weight != Slot::Input,
        weight != Slot::Carry,
        d.len() == 4,
        0 <= dim < 3,
        keeps(x, e1, e2, d, dim, i),
        (e1.leaf)(weight).shape == seq![d[3]],
    ensures
        keeps(normed(weight, eps, &x), e1, e2, d, dim, i),
        value(&normed(weight, eps, &x), e1).format == value(&x, e1).format,
{
    broadcast use meaning::group_value;

    let a = e1.arithmetic;
    let (x1, x2) = (value(&x, e1), value(&x, e2));
    let wf = (a.widened)(x1.format);
    causal_laws::lemma_formatted(x1, x2, dim, i, wf, a);
    let (y1, y2) = (formatted(x1, wf, a), formatted(x2, wf, a));
    let sqr = |e: E| (a.apply)(SameShape::Sqr, e);
    let plus = |e: E| (a.plus)(e, Scalar::Epsilon(FloatSetting::Double(eps)));
    let root = |e: E| (a.apply)(SameShape::Sqrt, e);
    let inverse = |e: E| (a.apply)(SameShape::Recip, e);
    causal_laws::lemma_mapped(y1, y2, dim, i, sqr);
    let (p1, p2) = (mapped(y1, sqr), mapped(y2, sqr));
    lemma_by_row(p1, p2, dim, i, a.mean);
    let (m1, m2) = (by_row(p1, a.mean), by_row(p2, a.mean));
    causal_laws::lemma_mapped(m1, m2, dim, i, plus);
    causal_laws::lemma_mapped(mapped(m1, plus), mapped(m2, plus), dim, i, root);
    let (r1, r2) = (mapped(mapped(m1, plus), root), mapped(mapped(m2, plus), root));
    causal_laws::lemma_mapped(r1, r2, dim, i, inverse);
    let mul = |p: E, q: E| (a.pair)(Pairwise::BroadcastMul, p, q);
    lemma_scaled_rows(y1, y2, mapped(r1, inverse), mapped(r2, inverse), dim, i, mul);
    let (u1, u2) = (
        broadcasted(y1, mapped(r1, inverse), mul),
        broadcasted(y2, mapped(r2, inverse), mul),
    );
    let one = |e: E| (a.plus)(e, Scalar::One);
    let w = mapped(formatted((e1.leaf)(weight), wf, a), one);
    assert(graph::broadcast(d, w.shape)->0 =~= d && graph::broadcast(d, w.shape) is Some) by {
        assert(forall|k: int| 0 <= k < 4 ==> graph::aligned(d, 4, k) == d[k]);
        assert(forall|k: int| 0 <= k < 3 ==> graph::aligned(w.shape, 4, k) == 1);
        assert(graph::aligned(w.shape, 4, 3) == d[3]);
    }
    causal_laws::lemma_broadcasted(u1, u2, w, w, dim, i, mul);
    causal_laws::lemma_formatted(
        broadcasted(u1, w, mul),
        broadcasted(u2, w, mul),
        dim,
        i,
        x1.format,
        a,
    );
    let wide = apply(SameShape::Widen, &x);
    let scaled = mean_square_norm(&wide, FloatSetting::Double(eps));
    assert(value(&scaled, e1) == u1);
    assert(value(&scaled, e2) == u2);
}

/// The rotary embedding.
proof fn lemma_keeps_rotated<E>(
    x: Rc<Node>,
    step: Step,
    e1: World<E>,
    e2: World<E>,
    d: Seq<nat>,
    i: int,
)
    requires
        same_weights(e1, e2),
        d.len() == 4,
        keeps(x, e1, e2, d, 2, i),
    ensures
        keeps(qwen3_5::rotated(&x, step), e1, e2, d, 2, i),
        value(&qwen3_5::rotated(&x, step), e1).format == value(&x, e1).format,
{
    broadcast use meaning::group_value;

    let a = e1.arithmetic;
    let (start, len) = (step.offset as int, step.len as nat);
    let cos = narrowed((e1.leaf)(Slot::Cos), 0, start, len);
    let sin = narrowed((e1.leaf)(Slot::Sin), 0, start, len);
    causal_laws::lemma_rotated(value(&x, e1), value(&x, e2), cos, sin, i, a);
}

/// New keys or values behind those that are cached.
proof fn lemma_keeps_behind<E>(
    x: Rc<Node>,
    cache: Slot,
    cached: bool,
    past: nat,
    e1: World<E>,
    e2: World<E>,
    d: Seq<nat>,
    i: int,
)
    requires
        same_weights(e1, e2),
        cache != Slot::Input,
        cache != Slot::Carry,
        d.len() == 4,
        0 <= i,
        keeps(x, e1, e2, d, 2, i),
        if cached {
            (e1.leaf)(cache).shape == d.update(2, past)
        } else {
            past == 0
        },
    ensures
        keeps(behind(&x, cache, cached), e1, e2, d.update(2, past + d[2]), 2, past + i),
{
    broadcast use meaning::group_value;

    if cached {
        let c = (e1.leaf)(cache);
        let (x1, x2) = (value(&x, e1), value(&x, e2));
        let (l, r) = (joined(c, x1, 2), joined(c, x2, 2));
        assert(l.shape =~= d.update(2, past + d[2]));
        assert forall|idx: Seq<int>| #[trigger] within(l.shape, idx) && idx[2] <= past
            + i implies (l.at)(idx) == (r.at)(idx) by {
            if idx[2] >= past {
                assert(within(d, idx.update(2, idx[2] - past)));
            }
        }
    } else {
        assert(d.update(2, past + d[2]) =~= d);
    }
}

/// The mask of the dense model: it hides exactly the later positions. Where positions came before,
/// the rows of the mask are put together from two formats, which have to be one.
pub proof fn dense_mask_hides_later_positions<E>(
    batch: usize,
    len: usize,
    offset: usize,
    d: Seq<nat>,
    env: World<E>,
)
    requires
        len + offset <= usize::MAX,
        d.len() == 4,
        d[0] == batch,
        d[2] == len,
        d[3] == len + offset,
        offset > 0 ==> env.arithmetic.model == env.arithmetic.single,
    ensures
        ({
            let a = env.arithmetic;
            is_causal(
                value(&prepare_causal_attention_mask(batch, len, offset), env),
                d,
                offset as nat,
                in_format(a.hidden, a.single, a.model, a),
                in_format(a.zero, a.single, a.model, a),
            )
        }),
{
    broadcast use meaning::group_value;

    let a = env.arithmetic;
    let (l, o) = (len as nat, offset as nat);
    let rows = value(&mask_rows(len, offset), env);
    let square = meaning::causal(l, a);
    assert(rows.shape =~= seq![l, l + o]);
    assert(rows.format == (if offset > 0 {
        a.model
    } else {
        a.single
    }));
    let to = seq![batch as nat, 1, l, l + o];
    let mask = expanded(rows, to);
    assert forall|idx: Seq<int>| within(to, idx) implies #[trigger] (mask.at)(idx) == (if idx[3] > o
        + idx[2] {
        a.hidden
    } else {
        a.zero
    }) by {
        assert(0 <= idx[2] < l && 0 <= idx[3] < l + o);
        let c = clipped(rows.shape, idx);
        assert(c =~= seq![idx[2], idx[3]]);
        assert(within(rows.shape, c));
        if offset > 0 {
            if idx[3] < o {
                assert(within(seq![l, o], c));
            } else {
                let k = c.update(1, c[1] - o);
                assert(within(square.shape, k));
            }
        } else {
            assert(within(square.shape, c));
        }
    }
    assert(value(&prepare_causal_attention_mask(batch, len, offset), env) == formatted(
        mask,
        a.model,
        a,
    ));
    causal_laws::lemma_formatted_mask(mask, d, o, a.hidden, a.zero, a.model, a);
}

/// The queries and their gates.
proof fn lemma_keeps_query<E>(
    w: AttentionState,
    x: Rc<Node>,
    step: Step,
    known: graph::Shapes,
    hidden: nat,
    past: nat,
    rows: nat,
    e1: World<E>,
    e2: World<E>,
    i: int,
)
    requires
        w.dims.fits(),
        w.described_by(known, step, hidden, past, rows),
        matches_shapes(e1, known),
        same_weights(e1, e2),
        keeps(x, e1, e2, seq![step.batch as nat, step.len as nat, hidden], 1, i),
    ensures
        keeps(
            w.query(x, step),
            e1,
            e2,
            seq![
                step.batch as nat,
                w.dims.num_heads as nat,
                step.len as nat,
                w.dims.head_dim as nat,
            ],
            2,
            i,
        ),
        keeps(
            w.gate(x, step),
            e1,
            e2,
            seq![
                step.batch as nat,
                step.len as nat,
                w.dims.num_heads as nat,
                w.dims.head_dim as nat,
            ],
            1,
            i,
        ),
{
    broadcast use meaning::group_value;

    let (b, s, h, d) = (step.batch, step.len, w.dims.num_heads, w.dims.head_dim);
    let (bn, sn, hn, dn) = (b as nat, s as nat, h as nat, d as nat);
    let width = (h * d * 2) as nat;
    assert((known.linear)(Projection::Query) is Some && (known.leaf)(Slot::QueryNorm) is Some);
    causal_laws::lemma_keeps_project(
        Projection::Query,
        Slot::QueryBias,
        false,
        x,
        e1,
        e2,
        bn,
        sn,
        hidden,
        width,
        i,
    );
    let dd = (d * 2) as usize;
    assert(width == h * dd) by (nonlinear_arith)
        requires
            width == h * d * 2,
            dd == d * 2,
    ;
    let q = linear(Projection::Query, &x);
    causal_laws::lemma_keeps_heads(q, e1, e2, b, s, h, dd, i);
    let both = w.query_and_gate(x, step);
    let (y1, y2) = (value(&both, e1), value(&both, e2));
    let full = seq![bn, sn, hn, dn];
    assert(seq![bn, sn, hn, dd as nat].update(3, dn) =~= full);
    causal_laws::lemma_narrowed(y1, y2, 1, i, 3, d as int, dn);
    causal_laws::lemma_narrowed(y1, y2, 1, i, 3, 0, dn);
    let part = narrow(&both, 3, 0, d);
    assert(keeps(part, e1, e2, full, 1, i));
    lemma_keeps_norm(part, Slot::QueryNorm, w.query_eps, e1, e2, full, 1, i);
    causal_laws::lemma_keeps_transpose(
        normed(Slot::QueryNorm, w.query_eps, &part),
        e1,
        e2,
        full,
        1,
        i,
    );
}

/// The keys and values, behind those that are cached.
proof fn lemma_keeps_cache<E>(
    w: AttentionState,
    x: Rc<Node>,
    step: Step,
    known: graph::Shapes,
    hidden: nat,
    past: nat,
    rows: nat,
    e1: World<E>,
    e2: World<E>,
    i: int,
)
    requires
        0 <= i,
        w.described_by(known, step, hidden, past, rows),
        matches_shapes(e1, known),
        same_weights(e1, e2),
        keeps(x, e1, e2, seq![step.batch as nat, step.len as nat, hidden], 1, i),
    ensures
        keeps(
            w.all_keys(x, step),
            e1,
            e2,
            seq![
                step.batch as nat,
                w.dims.num_kv_heads as nat,
                past + step.len as nat,
                w.dims.head_dim as nat,
            ],
            2,
            past + i,
        ),
        keeps(
            w.all_values(x, step),
            e1,
            e2,
            seq![
                step.batch as nat,
                w.dims.num_kv_heads as nat,
                past + step.len as nat,
                w.dims.head_dim as nat,
            ],
            2,
            past + i,
        ),
{
    let (b, s, h, d) = (step.batch, step.len, w.dims.num_kv_heads, w.dims.head_dim);
    let (bn, sn, hn, dn) = (b as nat, s as nat, h as nat, d as nat);
    let kv = (h * d) as nat;
    assert((known.linear)(Projection::Key) is Some && (known.linear)(Projection::Value) is Some);
    assert((known.leaf)(Slot::KeyNorm) is Some);
    assert(w.cached ==> (known.leaf)(Slot::CachedKeys) is Some && (known.leaf)(
        Slot::CachedValues,
    ) is Some);
    causal_laws::lemma_keeps_project(
        Projection::Key,
        Slot::KeyBias,
        false,
        x,
        e1,
        e2,
        bn,
        sn,
        hidden,
        kv,
        i,
    );
    causal_laws::lemma_keeps_project(
        Projection::Value,
        Slot::ValueBias,
        false,
        x,
        e1,
        e2,
        bn,
        sn,
        hidden,
        kv,
        i,
    );
    let (k, v) = (linear(Projection::Key, &x), linear(Projection::Value, &x));
    causal_laws::lemma_keeps_heads(k, e1, e2, b, s, h, d, i);
    causal_laws::lemma_keeps_heads(v, e1, e2, b, s, h, d, i);
    let full = seq![bn, sn, hn, dn];
    let turned = seq![bn, hn, sn, dn];
    let split = in_heads(&k, step, h, d);
    lemma_keeps_norm(split, Slot::KeyNorm, w.key_eps, e1, e2, full, 1, i);
    causal_laws::lemma_keeps_transpose(
        normed(Slot::KeyNorm, w.key_eps, &split),
        e1,
        e2,
        full,
        1,
        i,
    );
    causal_laws::lemma_keeps_transpose(in_heads(&v, step, h, d), e1, e2, full, 1, i);
    lemma_keeps_rotated(w.key(x, step), step, e1, e2, turned, i);
    assert(turned.update(2, past) =~= seq![bn, hn, past, dn]);
    assert(turned.update(2, past + sn) =~= seq![bn, hn, past + sn, dn]);
    lemma_keeps_behind(
        qwen3_5::rotated(&w.key(x, step), step),
        Slot::CachedKeys,
        w.cached,
        past,
        e1,
        e2,
        turned,
        i,
    );
    lemma_keeps_behind(
        w.value(x, step),
        Slot::CachedValues,
        w.cached,
        past,
        e1,
        e2,
        turned,
        i,
    );
}

/// Reshaping to the dimensions that are there changes nothing.
proof fn lemma_keeps_shape<E>(
    x: Rc<Node>,
    e1: World<E>,
    e2: World<E>,
    step: Step,
    h: usize,
    d: usize,
    i: int,
)
    requires
        keeps(
            x,
            e1,
            e2,
            seq![step.batch as nat, step.len as nat, h as nat, d as nat],
            1,
            i,
        ),
    ensures
        keeps(
            in_heads(&x, step, h, d),
            e1,
            e2,
            seq![step.batch as nat, step.len as nat, h as nat, d as nat],
            1,
            i,
        ),
{
    broadcast use meaning::group_value;

    let full = seq![step.batch as nat, step.len as nat, h as nat, d as nat];
    let (x1, x2) = (value(&x, e1), value(&x, e2));
    let (l, r) = (reshaped(x1, full), reshaped(x2, full));
    assert forall|idx: Seq<int>| #[trigger] within(l.shape, idx) && idx[1] <= i implies (l.at)(idx)
        == (r.at)(idx) by {
        causal_laws::lemma_place(full, idx);
    }
}

/// The scores of a step, before the mask is added.
pub open spec fn raw_scores(w: AttentionState, x: Rc<Node>, step: Step) -> Rc<Node> {
    scores(
        &qwen3_5::rotated(&w.query(x, step), step),
        &for_each_query_head(&w.all_keys(x, step), w.dims.num_kv_groups),
        w.dims.head_dim,
    )
}

/// The values of a step, one for each query head.
pub open spec fn spread_values(w: AttentionState, x: Rc<Node>, step: Step) -> Rc<Node> {
    for_each_query_head(&w.all_values(x, step), w.dims.num_kv_groups)
}

/// An attention layer of the dense model under the causal mask, `past` positions being cached: where
/// two inputs agree up to position `i` of the step, so do the outputs, and the keys and values to
/// cache. What comes after a position does not change what the layer makes of it.
///
/// Scores and values have to be finite, and the arithmetic to hide masked scores.
pub proof fn dense_attention_sees_no_later_positions<E>(
    w: AttentionState,
    x: Rc<Node>,
    step: Step,
    known: graph::Shapes,
    hidden: nat,
    rows: nat,
    e1: World<E>,
    e2: World<E>,
    i: int,
    finite: spec_fn(E) -> bool,
    no: E,
    nil: E,
)
    requires
        w.dims.fits(),
        w.dims.consistent(),
        step.masked,
        0 <= i,
        step.len + step.offset <= usize::MAX,
        w.described_by(known, step, hidden, step.offset as nat, rows),
        matches_shapes(e1, known),
        same_weights(e1, e2),
        keeps(x, e1, e2, seq![step.batch as nat, step.len as nat, hidden], 1, i),
        (e1.leaf)(Slot::Mask) == value(
            &prepare_causal_attention_mask(step.batch, step.len, step.offset),
            e1,
        ),
        step.offset > 0 ==> e1.arithmetic.model == e1.arithmetic.single,
        all_finite(value(&raw_scores(w, x, step), e1), finite),
        all_finite(value(&raw_scores(w, x, step), e2), finite),
        all_finite(value(&spread_values(w, x, step), e1), finite),
        all_finite(value(&spread_values(w, x, step), e2), finite),
        ({
            let a = e1.arithmetic;
            let later = in_format(a.hidden, a.single, a.model, a);
            let now = in_format(a.zero, a.single, a.model, a);
            hides(a, later, now, finite, no, nil)
        }),
    ensures
        keeps(
            w.output(x, step),
            e1,
            e2,
            seq![step.batch as nat, step.len as nat, hidden],
            1,
            i,
        ),
        agree(
            value(&w.all_keys(x, step), e1),
            value(&w.all_keys(x, step), e2),
            2,
            step.offset + i,
        ),
        agree(
            value(&w.all_values(x, step), e1),
            value(&w.all_values(x, step), e2),
            2,
            step.offset + i,
        ),
{
    let a = e1.arithmetic;
    let past = step.offset as nat;
    let (b, s, h, d) = (step.batch, step.len, w.dims.num_heads, w.dims.head_dim);
    let (bn, sn, hn, dn) = (b as nat, s as nat, h as nat, d as nat);
    let t = past + sn;
    let full = seq![bn, hn, sn, dn];
    let few = seq![bn, w.dims.num_kv_heads as nat, t, dn];
    lemma_keeps_query(w, x, step, known, hidden, past, rows, e1, e2, i);
    lemma_keeps_cache(w, x, step, known, hidden, past, rows, e1, e2, i);
    lemma_keeps_rotated(w.query(x, step), step, e1, e2, full, i);
    let groups = w.dims.num_kv_groups;
    causal_laws::lemma_keeps_repeated(w.all_keys(x, step), groups, e1, e2, few, hn, past + i);
    causal_laws::lemma_keeps_repeated(w.all_values(x, step), groups, e1, e2, few, hn, past + i);
    assert(few.update(1, hn) =~= full.update(2, t));
    let query = qwen3_5::rotated(&w.query(x, step), step);
    let keys = for_each_query_head(&w.all_keys(x, step), groups);
    let values = spread_values(w, x, step);
    dense_mask_hides_later_positions(b, s, step.offset, full.update(3, t), e1);
    let mask = (e1.leaf)(Slot::Mask);
    let later = in_format(a.hidden, a.single, a.model, a);
    let now = in_format(a.zero, a.single, a.model, a);
    let (q1, q2) = (value(&query, e1), value(&query, e2));
    let (k1, k2) = (value(&keys, e1), value(&keys, e2));
    let (v1, v2) = (value(&values, e1), value(&values, e2));
    assert(value(&raw_scores(w, x, step), e1) == scored(q1, k1, d, a) && value(
        &raw_scores(w, x, step),
        e2,
    ) == scored(q2, k2, d, a)) by {
        broadcast use meaning::group_value;

    }
    causal_laws::lemma_attended(
        q1,
        q2,
        k1,
        k2,
        v1,
        v2,
        mask,
        d,
        past,
        i,
        a,
        later,
        now,
        finite,
        no,
        nil,
        full,
    );
    let weights = apply(SameShape::Softmax, &hiding_later(&raw_scores(w, x, step), true));
    let product = pair(Pairwise::MatMul, &weights, &values);
    assert(keeps(product, e1, e2, full, 2, i)) by {
        broadcast use meaning::group_value;

        assert(value(&weights, e1) == weighed(masked(scored(q1, k1, d, a), mask, a), a));
        assert(value(&weights, e2) == weighed(masked(scored(q2, k2, d, a), mask, a), a));
    }
    causal_laws::lemma_keeps_transpose(product, e1, e2, full, 2, i);
    lemma_keeps_shape(transpose(&product, 1, 2), e1, e2, step, h, d, i);
    assert((known.linear)(Projection::Output) is Some);
    assert(h * d <= usize::MAX) by {
        assert(h * d <= h * d * 2);
    }
    causal_laws::lemma_keeps_joined(
        w.context(x, step),
        w.gate(x, step),
        true,
        b,
        s,
        h,
        d,
        hidden,
        e1,
        e2,
        i,
    );
}

}
