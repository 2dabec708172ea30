//! Attention of the dense model that continues from its cache.
use crate::attention::{for_each_query_head, scores};
use crate::blocks::mean_square_norm;
use crate::cache_laws;
use crate::cache_laws::{is_piece, omits, part, same_model, seen_row, takes};
use crate::causal_laws;
use crate::causal_laws::{all_finite, in_format, is_causal, masked, scored};
use crate::dense_causal_laws;
use crate::dense_causal_laws::{raw_scores, spread_values};
use crate::graph;
use crate::graph::{FloatSetting, Node, Pairwise, Projection, SameShape, Scalar, Slot};
use crate::meaning;
use crate::meaning::{
    broadcasted, by_row, clipped, formatted, line, mapped, multiplied, narrowed, reshaped, value,
    weighed, within, Arithmetic, Tensor, World,
};
use crate::ops::{apply, linear, narrow, pair, transpose};
use crate::pass::Step;
use crate::qwen3_5;
use crate::qwen3_5::{hiding_later, in_heads, normed, prepare_causal_attention_mask, AttentionState};
use crate::shapes;
use crate::value_shapes::matches_shapes;
use std::rc::Rc;
use vstd::prelude::*;

verus! {

/// One number for each row.
proof fn lemma_by_row<E>(
    a: Tensor<E>,
    b: Tensor<E>,
    dim: int,
    off: int,
    f: spec_fn(Seq<E>) -> E,
)
    requires
        part(a, b, dim, off),
        dim < a.shape.len() - 1,
    ensures
        part(by_row(a, f), by_row(b, f), dim, off),
{
    let (l, r) = (by_row(a, f), by_row(b, f));
    assert(l.shape =~= r.shape.update(dim, l.shape[dim]));
    assert forall|idx: Seq<int>| #[trigger] within(l.shape, idx) implies (l.at)(idx) == (r.at)(
        idx.update(dim, idx[dim] + off),
    ) by {
        cache_laws::lemma_within_part(l.shape, r.shape, dim, off, idx);
        assert forall|j: int| 0 <= j < idx.len() - 1 implies 0 <= #[trigger] idx[j]
            < a.shape[j] by {
            assert(0 <= idx[j] < l.shape[j]);
        }
        cache_laws::lemma_line(a, b, dim, off, idx);
    }
}

/// Rows and one number for each of them.
proof fn lemma_scaled_rows<E>(
    a: Tensor<E>,
    b: Tensor<E>,
    c: Tensor<E>,
    d: Tensor<E>,
    dim: int,
    off: int,
    f: spec_fn(E, E) -> E,
)
    requires
        part(a, b, dim, off),
        part(c, d, dim, off),
        a.shape.len() == 4,
        dim < 3,
        c.shape == a.shape.update(3, 1),
        d.shape == b.shape.update(3, 1),
    ensures
        part(broadcasted(a, c, f), broadcasted(b, d, f), dim, off),
        broadcasted(a, c, f).shape == a.shape,
        broadcasted(b, d, f).shape == b.shape,
        broadcasted(b, d, f).format == b.format,
{
    shapes::lemma_broadcast4(a.shape, c.shape);
    shapes::lemma_broadcast4(b.shape, d.shape);
    let (l, r) = (broadcasted(a, c, f), broadcasted(b, d, f));
    assert forall|idx: Seq<int>| #[trigger] within(l.shape, idx) implies (l.at)(idx) == (r.at)(
        idx.update(dim, idx[dim] + off),
    ) by {
        let to = idx.update(dim, idx[dim] + off);
        cache_laws::lemma_within_part(a.shape, b.shape, dim, off, idx);
        meaning::lemma_clipped(a.shape, idx);
        meaning::lemma_clipped(b.shape, to);
        let i = idx.update(3, 0);
        assert(i.update(dim, i[dim] + off) =~= to.update(3, 0));
    }
}

/// A weight for each element of a row.
proof fn lemma_weighted_rows<E>(
    a: Tensor<E>,
    b: Tensor<E>,
    w: Tensor<E>,
    dim: int,
    off: int,
    f: spec_fn(E, E) -> E,
)
    requires
        part(a, b, dim, off),
        a.shape.len() == 4,
        dim < 3,
        w.shape == seq![a.shape[3]],
    ensures
        part(broadcasted(a, w, f), broadcasted(b, w, f), dim, off),
        broadcasted(a, w, f).shape == a.shape,
        broadcasted(b, w, f).shape == b.shape,
{
    lemma_weight_shape(a.shape, w.shape);
    lemma_weight_shape(b.shape, w.shape);
    let (l, r) = (broadcasted(a, w, f), broadcasted(b, w, f));
    assert forall|idx: Seq<int>| #[trigger] within(l.shape, idx) implies (l.at)(idx) == (r.at)(
        idx.update(dim, idx[dim] + off),
    ) by {
        let to = idx.update(dim, idx[dim] + off);
        cache_laws::lemma_within_part(a.shape, b.shape, dim, off, idx);
        meaning::lemma_clipped(a.shape, idx);
        meaning::lemma_clipped(b.shape, to);
        assert(clipped(w.shape, idx) =~= clipped(w.shape, to));
    }
}

/// Broadcasting a weight to rows.
proof fn lemma_weight_shape(d: Seq<nat>, w: Seq<nat>)
    requires
        d.len() == 4,
        w == seq![d[3]],
    ensures
        graph::broadcast(d, w) == Some(d),
{
    assert(forall|k: int| 0 <= k < 4 ==> graph::aligned(d, 4, k) == d[k]);
    assert(forall|k: int| 0 <= k < 3 ==> graph::aligned(w, 4, k) == 1);
    assert(graph::aligned(w, 4, 3) == d[3]);
    assert(graph::broadcast(d, w)->0 =~= d);
}

/// The norm of each head.
proof fn lemma_takes_norm<E>(
    x1: Rc<Node>,
    e1: World<E>,
    x: Rc<Node>,
    e: World<E>,
    weight: Slot,
    eps: u64,
    d: Seq<nat>,
    dim: int,
    off: int,
    len: nat,
)
    requires
        same_model(e1, e),
        weight == Slot::QueryNorm || weight == Slot::KeyNorm,
        d.len() == 4,
        0 <= dim < 3,
        takes(x1, e1, x, e, d, dim, off, len),
        (e.leaf)(weight).shape == seq![d[3]],
    ensures
        takes(normed(weight, eps, &x1), e1, normed(weight, eps, &x), e, d, dim, off, len),
{
    broadcast use meaning::group_value;

    let a = e.arithmetic;
    let (z1, z) = (value(&x1, e1), value(&x, e));
    let wf = (a.widened)(z.format);
    cache_laws::lemma_formatted(z1, z, dim, off, wf, a);
    let (y1, y) = (formatted(z1, wf, a), formatted(z, wf, a));
    let sqr = |e: E| (a.apply)(SameShape::Sqr, e);
    let plus = |e: E| (a.plus)(e, Scalar::Epsilon(FloatSetting::Double(eps)));
    let root = |e: E| (a.apply)(SameShape::Sqrt, e);
    let inverse = |e: E| (a.apply)(SameShape::Recip, e);
    cache_laws::lemma_mapped(y1, y, dim, off, sqr);
    let (p1, p) = (mapped(y1, sqr), mapped(y, sqr));
    lemma_by_row(p1, p, dim, off, a.mean);
    let (m1, m) = (by_row(p1, a.mean), by_row(p, a.mean));
    cache_laws::lemma_mapped(m1, m, dim, off, plus);
    cache_laws::lemma_mapped(mapped(m1, plus), mapped(m, plus), dim, off, root);
    let (r1, r) = (mapped(mapped(m1, plus), root), mapped(mapped(m, plus), root));
    cache_laws::lemma_mapped(r1, r, dim, off, inverse);
    let mul = |p: E, q: E| (a.pair)(Pairwise::BroadcastMul, p, q);
    lemma_scaled_rows(y1, y, mapped(r1, inverse), mapped(r, inverse), dim, off, mul);
    let (u1, u) = (
        broadcasted(y1, mapped(r1, inverse), mul),
        broadcasted(y, mapped(r, inverse), mul),
    );
    let one = |e: E| (a.plus)(e, Scalar::One);
    let w = mapped(formatted((e.leaf)(weight), wf, a), one);
    lemma_weighted_rows(u1, u, w, dim, off, mul);
    cache_laws::lemma_formatted(
        broadcasted(u1, w, mul),
        broadcasted(u, w, mul),
        dim,
        off,
        z.format,
        a,
    );
    let (wide1, wide) = (apply(SameShape::Widen, &x1), apply(SameShape::Widen, &x));
    assert(value(&mean_square_norm(&wide1, FloatSetting::Double(eps)), e1) == u1);
    assert(value(&mean_square_norm(&wide, FloatSetting::Double(eps)), e) == u);
}

/// The rotary embedding.
proof fn lemma_takes_rotated<E>(
    x1: Rc<Node>,
    step1: Step,
    e1: World<E>,
    x: Rc<Node>,
    step: Step,
    e: World<E>,
    d: Seq<nat>,
    rows: nat,
    columns: nat,
)
    requires
        same_model(e1, e),
        d.len() == 4,
        d[2] == step.len,
        step.offset == 0,
        takes(x1, e1, x, e, d, 2, step1.offset as int, step1.len as nat),
        (e.leaf)(Slot::Cos).shape == seq![rows, columns],
        (e.leaf)(Slot::Sin).shape == seq![rows, columns],
    ensures
        takes(
            qwen3_5::rotated(&x1, step1),
            e1,
            qwen3_5::rotated(&x, step),
            e,
            d,
            2,
            step1.offset as int,
            step1.len as nat,
        ),
        value(&qwen3_5::rotated(&x, step), e).regular(),
{
    broadcast use meaning::group_value;

    let a = e.arithmetic;
    let (o, l) = (step1.offset as int, step1.len as nat);
    let n = step.len as nat;
    let (cos, sin) = ((e.leaf)(Slot::Cos), (e.leaf)(Slot::Sin));
    cache_laws::lemma_table(cos, rows, columns, o, l, n, cos.format, a);
    cache_laws::lemma_table(sin, rows, columns, o, l, n, sin.format, a);
    cache_laws::lemma_rotated(
        value(&x1, e1),
        value(&x, e),
        narrowed(cos, 0, o, l),
        narrowed(cos, 0, 0, n),
        narrowed(sin, 0, o, l),
        narrowed(sin, 0, 0, n),
        o,
        a,
    );
}

/// The queries of a piece, and its gates.
proof fn lemma_takes_query<E>(
    w: AttentionState,
    x: Rc<Node>,
    piece: Step,
    e1: World<E>,
    whole: Step,
    e: World<E>,
    known: graph::Shapes,
    hidden: nat,
    rows: nat,
)
    requires
        w.dims.fits(),
        w.described_by(known, whole, hidden, 0, rows),
        matches_shapes(e, known),
        is_piece(x, piece, e1, whole, e, hidden),
    ensures
        takes(
            w.query(x, piece),
            e1,
            w.query(x, whole),
            e,
            seq![
                whole.batch as nat,
                w.dims.num_heads as nat,
                whole.len as nat,
                w.dims.head_dim as nat,
            ],
            2,
            piece.offset as int,
            piece.len as nat,
        ),
        takes(
            w.gate(x, piece),
            e1,
            w.gate(x, whole),
            e,
            seq![
                whole.batch as nat,
                whole.len as nat,
                w.dims.num_heads as nat,
                w.dims.head_dim as nat,
            ],
            1,
            piece.offset as int,
            piece.len as nat,
        ),
{
    broadcast use meaning::group_value;

    let (b, n, h, d) = (whole.batch, whole.len, w.dims.num_heads, w.dims.head_dim);
    let (bn, nn, hn, dn) = (b as nat, n as nat, h as nat, d as nat);
    let (off, s) = (piece.offset as int, piece.len);
    let width = (h * d * 2) as nat;
    assert((known.linear)(Projection::Query) is Some && (known.leaf)(Slot::QueryNorm) is Some);
    cache_laws::lemma_takes_project(
        Projection::Query,
        Slot::QueryBias,
        false,
        x,
        e1,
        e,
        bn,
        nn,
        hidden,
        width,
        off,
        s as nat,
    );
    let dd = (d * 2) as usize;
    assert(width == h * dd) by (nonlinear_arith)
        requires
            width == h * d * 2,
            dd == d * 2,
    ;
    let q = linear(Projection::Query, &x);
    cache_laws::lemma_takes_heads(q, e1, e, b, s, n, h, dd, off);
    let (both1, both) = (w.query_and_gate(x, piece), w.query_and_gate(x, whole));
    let (y1, y) = (value(&both1, e1), value(&both, e));
    let full = seq![bn, nn, hn, dn];
    let wide = seq![bn, nn, hn, dd as nat];
    assert(wide.update(3, dn) =~= full);
    assert(wide.update(1, s as nat).update(3, dn) =~= full.update(1, s as nat));
    cache_laws::lemma_narrowed(y1, y, 1, off, 3, d as int, dn);
    cache_laws::lemma_narrowed(y1, y, 1, off, 3, 0, dn);
    let (states1, states) = (narrow(&both1, 3, 0, d), narrow(&both, 3, 0, d));
    assert(takes(states1, e1, states, e, full, 1, off, s as nat));
    lemma_takes_norm(
        states1,
        e1,
        states,
        e,
        Slot::QueryNorm,
        w.query_eps,
        full,
        1,
        off,
        s as nat,
    );
    cache_laws::lemma_takes_transpose(
        normed(Slot::QueryNorm, w.query_eps, &states1),
        e1,
        normed(Slot::QueryNorm, w.query_eps, &states),
        e,
        full,
        1,
        off,
        s as nat,
    );
}

/// The keys of a piece, rotated, and its values.
proof fn lemma_takes_new<E>(
    w: AttentionState,
    x: Rc<Node>,
    piece: Step,
    e1: World<E>,
    whole: Step,
    e: World<E>,
    known: graph::Shapes,
    hidden: nat,
    rows: nat,
)
    requires
        w.described_by(known, whole, hidden, 0, rows),
        matches_shapes(e, known),
        is_piece(x, piece, e1, whole, e, hidden),
    ensures
        takes(
            qwen3_5::rotated(&w.key(x, piece), piece),
            e1,
            qwen3_5::rotated(&w.key(x, whole), whole),
            e,
            seq![
                whole.batch as nat,
                w.dims.num_kv_heads as nat,
                whole.len as nat,
                w.dims.head_dim as nat,
            ],
            2,
            piece.offset as int,
            piece.len as nat,
        ),
        takes(
            w.value(x, piece),
            e1,
            w.value(x, whole),
            e,
            seq![
                whole.batch as nat,
                w.dims.num_kv_heads as nat,
                whole.len as nat,
                w.dims.head_dim as nat,
            ],
            2,
            piece.offset as int,
            piece.len as nat,
        ),
        value(&qwen3_5::rotated(&w.key(x, whole), whole), e).regular(),
        value(&w.value(x, whole), e).regular(),
{
    let (b, n, h, d) = (whole.batch, whole.len, w.dims.num_kv_heads, w.dims.head_dim);
    let (bn, nn, hn, dn) = (b as nat, n as nat, h as nat, d as nat);
    let (off, s) = (piece.offset as int, piece.len);
    let kv = (h * d) as nat;
    assert((known.linear)(Projection::Key) is Some && (known.linear)(Projection::Value) is Some);
    assert((known.leaf)(Slot::KeyNorm) is Some);
    assert((known.leaf)(Slot::Cos) is Some && (known.leaf)(Slot::Sin) is Some);
    cache_laws::lemma_takes_project(
        Projection::Key,
        Slot::KeyBias,
        false,
        x,
        e1,
        e,
        bn,
        nn,
        hidden,
        kv,
        off,
        s as nat,
    );
    cache_laws::lemma_takes_project(
        Projection::Value,
        Slot::ValueBias,
        false,
        x,
        e1,
        e,
        bn,
        nn,
        hidden,
        kv,
        off,
        s as nat,
    );
    let (k, v) = (linear(Projection::Key, &x), linear(Projection::Value, &x));
    cache_laws::lemma_takes_heads(k, e1, e, b, s, n, h, d, off);
    cache_laws::lemma_takes_heads(v, e1, e, b, s, n, h, d, off);
    let full = seq![bn, nn, hn, dn];
    let turned = seq![bn, hn, nn, dn];
    let (k1, k0) = (in_heads(&k, piece, h, d), in_heads(&k, whole, h, d));
    lemma_takes_norm(k1, e1, k0, e, Slot::KeyNorm, w.key_eps, full, 1, off, s as nat);
    cache_laws::lemma_takes_transpose(
        normed(Slot::KeyNorm, w.key_eps, &k1),
        e1,
        normed(Slot::KeyNorm, w.key_eps, &k0),
        e,
        full,
        1,
        off,
        s as nat,
    );
    cache_laws::lemma_takes_transpose(
        in_heads(&v, piece, h, d),
        e1,
        in_heads(&v, whole, h, d),
        e,
        full,
        1,
        off,
        s as nat,
    );
    lemma_takes_rotated(
        w.key(x, piece),
        piece,
        e1,
        w.key(x, whole),
        whole,
        e,
        turned,
        rows,
        ((dn + 1) / 2) as nat,
    );
    assert(value(&w.value(x, whole), e).regular()) by {
        broadcast use meaning::group_value;

    }
}

/// The layer with a cache.
pub open spec fn with_cache(w: AttentionState) -> AttentionState {
    AttentionState { cached: true, ..w }
}

/// The pass over all `n` positions.
pub open spec fn whole_step(batch: usize, n: usize) -> Step {
    Step { batch, len: n, offset: 0, masked: true }
}

/// The pass over the first `m` of them. A single position needs no mask.
pub open spec fn first_step(batch: usize, m: usize) -> Step {
    Step { batch, len: m, offset: 0, masked: m != 1 }
}

/// The pass over the others.
pub open spec fn next_step(batch: usize, m: usize, n: usize) -> Step {
    Step { batch, len: (n - m) as usize, offset: m, masked: n - m != 1 }
}

/// Reshaping to the dimensions that are there changes nothing.
proof fn lemma_takes_shape<E>(
    x1: Rc<Node>,
    step1: Step,
    e1: World<E>,
    x: Rc<Node>,
    step: Step,
    e: World<E>,
    h: usize,
    d: usize,
    off: int,
)
    requires
        step1.batch == step.batch,
        takes(
            x1,
            e1,
            x,
            e,
            seq![step.batch as nat, step.len as nat, h as nat, d as nat],
            1,
            off,
            step1.len as nat,
        ),
    ensures
        takes(
            in_heads(&x1, step1, h, d),
            e1,
            in_heads(&x, step, h, d),
            e,
            seq![step.batch as nat, step.len as nat, h as nat, d as nat],
            1,
            off,
            step1.len as nat,
        ),
{
    broadcast use meaning::group_value;

    let full = seq![step.batch as nat, step.len as nat, h as nat, d as nat];
    let full1 = seq![step.batch as nat, step1.len as nat, h as nat, d as nat];
    assert(full1 =~= full.update(1, step1.len as nat));
    let (y1, y) = (value(&x1, e1), value(&x, e));
    let (l, r) = (reshaped(y1, full1), reshaped(y, full));
    assert forall|idx: Seq<int>| #[trigger] within(l.shape, idx) implies (l.at)(idx) == (r.at)(
        idx.update(1, idx[1] + off),
    ) by {
        cache_laws::lemma_within_part(full1, full, 1, off, idx);
        causal_laws::lemma_place(full1, idx);
        causal_laws::lemma_place(full, idx.update(1, idx[1] + off));
    }
}

/// What the heads attend to, heads before positions.
pub open spec fn product_of(
    query: &Rc<Node>,
    keys: &Rc<Node>,
    values: &Rc<Node>,
    width: usize,
    hidden_later: bool,
) -> Rc<Node> {
    pair(
        Pairwise::MatMul,
        &apply(SameShape::Softmax, &hiding_later(&scores(query, keys, width), hidden_later)),
        values,
    )
}

/// What [`product_of`] computes.
proof fn lemma_product<E>(
    query: Rc<Node>,
    keys: Rc<Node>,
    values: Rc<Node>,
    width: usize,
    hidden_later: bool,
    env: World<E>,
)
    ensures
        ({
            let a = env.arithmetic;
            let s = scored(value(&query, env), value(&keys, env), width, a);
            let t = if hidden_later {
                masked(s, (env.leaf)(Slot::Mask), a)
            } else {
                s
            };
            &&& value(&scores(&query, &keys, width), env) == s
            &&& value(&product_of(&query, &keys, &values, width, hidden_later), env)
                == multiplied(weighed(t, a), value(&values, env), a)
        }),
{
    broadcast use meaning::group_value;

}

/// The rows of the last scores, masked behind `m` positions or, for a single one, unmasked.
proof fn lemma_last_rows<E>(
    s2: Tensor<E>,
    s: Tensor<E>,
    mask2: Option<Tensor<E>>,
    m: nat,
    n: nat,
    a: Arithmetic<E>,
    later: E,
    now: E,
    finite: spec_fn(E) -> bool,
    no: E,
    nil: E,
    d: Seq<nat>,
    idx: Seq<int>,
)
    requires
        d.len() == 4,
        d[2] == n,
        m < n,
        s.shape == d.update(3, n),
        s2.shape == d.update(2, (n - m) as nat).update(3, n),
        part(s2, s, 2, m as int),
        all_finite(s, finite),
        omits(a, later, now, finite, no, nil),
        mask2 is None ==> n == m + 1,
        mask2 is Some ==> is_causal(mask2->0, s2.shape, m, later, now),
        within(s2.shape, idx),
    ensures
        ({
            let t2 = match mask2 {
                Some(mask2) => masked(s2, mask2, a),
                None => s2,
            };
            &&& t2.shape == s2.shape
            &&& t2.format == s2.format
            &&& line(t2, 3, idx) == seen_row(s, no, idx.update(2, idx[2] + m), n, 0)
        }),
{
    match mask2 {
        None => {
            cache_laws::lemma_last_rows(s2, s, m, n, no, d, idx);
        },
        Some(mask2) => {
            assert(all_finite(s2, finite)) by {
                assert forall|j: Seq<int>| within(s2.shape, j) implies finite(
                    #[trigger] (s2.at)(j),
                ) by {
                    cache_laws::lemma_within_part(s2.shape, s.shape, 2, m as int, j);
                    assert(finite((s.at)(j.update(2, j[2] + m))));
                }
            }
            cache_laws::lemma_masked_row(s2, mask2, m, a, later, now, finite, no, nil, idx);
            let to = idx.update(2, idx[2] + m);
            let (x, y) = (seen_row(s2, no, idx, n, m), seen_row(s, no, to, n, 0));
            assert forall|q: int| 0 <= q < n implies #[trigger] x[q] == y[q] by {
                let p = idx.update(3, q);
                assert(within(s2.shape, p));
                assert(p.update(2, p[2] + m) =~= to.update(3, q));
            }
            assert(x =~= y);
        },
    }
}

/// An attention layer of the dense model continues from its cache: after a pass over `m` positions,
/// a pass over the others up to `n` that finds their keys and values in the cache gives, behind what
/// the first pass gave, what one masked pass over all positions gives. The cache then holds what
/// that one pass would have left.
///
/// Scores and values have to be finite, and the arithmetic to leave out hidden positions. A mask
/// behind cached positions is put together from two formats, which have to be one.
pub proof fn dense_attention_continues_from_its_cache<E>(
    w: AttentionState,
    x: Rc<Node>,
    batch: usize,
    m: usize,
    n: usize,
    known: graph::Shapes,
    hidden: nat,
    rows: nat,
    e: World<E>,
    e1: World<E>,
    e2: World<E>,
    finite: spec_fn(E) -> bool,
    no: E,
    nil: E,
)
    requires
        w.dims.fits(),
        w.dims.consistent(),
        !w.cached,
        0 < m < n,
        w.described_by(known, whole_step(batch, n), hidden, 0, rows),
        matches_shapes(e, known),
        is_piece(x, first_step(batch, m), e1, whole_step(batch, n), e, hidden),
        is_piece(x, next_step(batch, m, n), e2, whole_step(batch, n), e, hidden),
        (e.leaf)(Slot::Mask) == value(&prepare_causal_attention_mask(batch, n, 0), e),
        m != 1 ==> (e1.leaf)(Slot::Mask) == value(
            &prepare_causal_attention_mask(batch, m, 0),
            e1,
        ),
        n - m != 1 ==> (e2.leaf)(Slot::Mask) == value(
            &prepare_causal_attention_mask(batch, (n - m) as usize, m),
            e2,
        ) && e.arithmetic.model == e.arithmetic.single,
        (e2.leaf)(Slot::CachedKeys) == value(&w.all_keys(x, first_step(batch, m)), e1),
        (e2.leaf)(Slot::CachedValues) == value(&w.all_values(x, first_step(batch, m)), e1),
        all_finite(value(&raw_scores(w, x, whole_step(batch, n)), e), finite),
        all_finite(value(&spread_values(w, x, whole_step(batch, n)), e), finite),
        ({
            let a = e.arithmetic;
            let later = in_format(a.hidden, a.single, a.model, a);
            let now = in_format(a.zero, a.single, a.model, a);
            omits(a, later, now, finite, no, nil)
        }),
    ensures
        value(&w.output(x, whole_step(batch, n)), e) == meaning::joined(
            value(&w.output(x, first_step(batch, m)), e1),
            value(&with_cache(w).output(x, next_step(batch, m, n)), e2),
            1,
        ),
        value(&with_cache(w).all_keys(x, next_step(batch, m, n)), e2) == value(
            &w.all_keys(x, whole_step(batch, n)),
            e,
        ),
        value(&with_cache(w).all_values(x, next_step(batch, m, n)), e2) == value(
            &w.all_values(x, whole_step(batch, n)),
            e,
        ),
{
    let a = e.arithmetic;
    let (whole, first, next) = (
        whole_step(batch, n),
        first_step(batch, m),
        next_step(batch, m, n),
    );
    let (h, d) = (w.dims.num_heads, w.dims.head_dim);
    let (bn, nn, hn, dn) = (batch as nat, n as nat, h as nat, d as nat);
    let (mn, ln) = (m as nat, (n - m) as nat);
    let full = seq![bn, hn, nn, dn];
    let few = seq![bn, w.dims.num_kv_heads as nat, nn, dn];
    let c = with_cache(w);
    let groups = w.dims.num_kv_groups;
    let half = ((dn + 1) / 2) as nat;
    assert((known.leaf)(Slot::Cos) is Some && (known.leaf)(Slot::Sin) is Some);
    lemma_takes_query(w, x, first, e1, whole, e, known, hidden, rows);
    lemma_takes_query(w, x, next, e2, whole, e, known, hidden, rows);
    lemma_takes_new(w, x, first, e1, whole, e, known, hidden, rows);
    lemma_takes_new(w, x, next, e2, whole, e, known, hidden, rows);
    cache_laws::lemma_joined(
        value(&w.all_keys(x, first), e1),
        value(&qwen3_5::rotated(&w.key(x, next), next), e2),
        value(&w.all_keys(x, whole), e),
        2,
    );
    cache_laws::lemma_joined(
        value(&w.all_values(x, first), e1),
        value(&w.value(x, next), e2),
        value(&w.all_values(x, whole), e),
        2,
    );
    assert(value(&c.all_keys(x, next), e2) == value(&w.all_keys(x, whole), e) && value(
        &c.all_values(x, next),
        e2,
    ) == value(&w.all_values(x, whole), e)) by {
        broadcast use meaning::group_value;

        assert(c.key(x, next) == w.key(x, next));
        assert(c.value(x, next) == w.value(x, next));
    }
    let (q1, q2, q0) = (w.query(x, first), w.query(x, next), w.query(x, whole));
    lemma_takes_rotated(q1, first, e1, q0, whole, e, full, rows, half);
    lemma_takes_rotated(q2, next, e2, q0, whole, e, full, rows, half);
    cache_laws::lemma_takes_repeated(
        w.all_keys(x, first),
        e1,
        w.all_keys(x, whole),
        e,
        groups,
        few,
        hn,
        0,
        mn,
    );
    cache_laws::lemma_takes_repeated(
        w.all_values(x, first),
        e1,
        w.all_values(x, whole),
        e,
        groups,
        few,
        hn,
        0,
        mn,
    );
    assert(few.update(1, hn) =~= full);
    let r1 = qwen3_5::rotated(&q1, first);
    let r2 = qwen3_5::rotated(&q2, next);
    let r0 = qwen3_5::rotated(&q0, whole);
    let k1 = for_each_query_head(&w.all_keys(x, first), groups);
    let k2 = for_each_query_head(&c.all_keys(x, next), groups);
    let k0 = for_each_query_head(&w.all_keys(x, whole), groups);
    let (v1, v2, v0) = (
        spread_values(w, x, first),
        spread_values(c, x, next),
        spread_values(w, x, whole),
    );
    assert(value(&k2, e2) == value(&k0, e) && value(&v2, e2) == value(&v0, e)) by {
        broadcast use meaning::group_value;

    }
    lemma_product(r1, k1, v1, d, first.masked, e1);
    lemma_product(r2, k2, v2, d, next.masked, e2);
    lemma_product(r0, k0, v0, d, true, e);
    let later = in_format(a.hidden, a.single, a.model, a);
    let now = in_format(a.zero, a.single, a.model, a);
    dense_causal_laws::dense_mask_hides_later_positions(batch, n, 0, full.update(3, nn), e);
    let shape1 = full.update(2, mn).update(3, mn);
    if first.masked {
        dense_causal_laws::dense_mask_hides_later_positions(batch, m, 0, shape1, e1);
    }
    let shape2 = full.update(2, ln).update(3, nn);
    if next.masked {
        dense_causal_laws::dense_mask_hides_later_positions(
            batch,
            (n - m) as usize,
            m,
            shape2,
            e2,
        );
    }
    let mask = (e.leaf)(Slot::Mask);
    let mask1 = if first.masked {
        Some((e1.leaf)(Slot::Mask))
    } else {
        None
    };
    let mask2 = if next.masked {
        Some((e2.leaf)(Slot::Mask))
    } else {
        None
    };
    cache_laws::lemma_takes_first(
        value(&r1, e1),
        value(&r0, e),
        value(&k1, e1),
        value(&k0, e),
        value(&v1, e1),
        value(&v0, e),
        mask1,
        mask,
        d,
        mn,
        nn,
        a,
        later,
        now,
        finite,
        no,
        nil,
        full,
    );
    let s0 = scored(value(&r0, e), value(&k0, e), d, a);
    let s2 = scored(value(&r2, e2), value(&k0, e), d, a);
    let t0 = masked(s0, mask, a);
    let t2 = match mask2 {
        Some(mask2) => masked(s2, mask2, a),
        None => s2,
    };
    cache_laws::lemma_some_scored(
        value(&r2, e2),
        value(&r0, e),
        value(&k0, e),
        d,
        m as int,
        a,
        full,
    );
    assert forall|idx: Seq<int>| #[trigger] within(s0.shape, idx) implies line(t0, 3, idx)
        == seen_row(s0, no, idx, nn, 0) by {
        cache_laws::lemma_masked_row(s0, mask, 0, a, later, now, finite, no, nil, idx);
    }
    shapes::lemma_broadcast4(s0.shape, mask.shape);
    if mask2 is Some {
        shapes::lemma_broadcast4(s2.shape, mask2->0.shape);
    }
    assert forall|idx: Seq<int>| #[trigger] within(t2.shape, idx) implies line(t2, 3, idx)
        == seen_row(s0, no, idx.update(2, idx[2] + m), nn, 0) by {
        lemma_last_rows(s2, s0, mask2, mn, nn, a, later, now, finite, no, nil, full, idx);
    }
    cache_laws::lemma_last_attended(t2, s0, t0, value(&v0, e), mn, nn, a, no, full);
    let p1 = product_of(&r1, &k1, &v1, d, first.masked);
    let p2 = product_of(&r2, &k2, &v2, d, next.masked);
    let p0 = product_of(&r0, &k0, &v0, d, true);
    assert(takes(p1, e1, p0, e, full, 2, 0, mn));
    assert(takes(p2, e2, p0, e, full, 2, m as int, ln));
    cache_laws::lemma_takes_transpose(p1, e1, p0, e, full, 2, 0, mn);
    cache_laws::lemma_takes_transpose(p2, e2, p0, e, full, 2, m as int, ln);
    let (c1, c2, c0) = (transpose(&p1, 1, 2), transpose(&p2, 1, 2), transpose(&p0, 1, 2));
    lemma_takes_shape(c1, first, e1, c0, whole, e, h, d, 0);
    lemma_takes_shape(c2, next, e2, c0, whole, e, h, d, m as int);
    assert(c.query(x, next) == w.query(x, next));
    assert(c.gate(x, next) == w.gate(x, next));
    assert((known.linear)(Projection::Output) is Some);
    assert(h * d <= usize::MAX) by {
        assert(h * d <= h * d * 2);
    }
    cache_laws::lemma_takes_joined(
        w.context(x, first),
        w.gate(x, first),
        e1,
        w.context(x, whole),
        w.gate(x, whole),
        e,
        true,
        batch,
        m,
        n,
        h,
        d,
        hidden,
        0,
    );
    cache_laws::lemma_takes_joined(
        c.context(x, next),
        c.gate(x, next),
        e2,
        w.context(x, whole),
        w.gate(x, whole),
        e,
        true,
        batch,
        (n - m) as usize,
        n,
        h,
        d,
        hidden,
        m as int,
    );
    assert(value(&w.output(x, whole), e).regular()) by {
        broadcast use meaning::group_value;

    }
    cache_laws::lemma_joined(
        value(&w.output(x, first), e1),
        value(&c.output(x, next), e2),
        value(&w.output(x, whole), e),
        1,
    );
}

}
