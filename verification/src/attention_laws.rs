//! What attention of the quantized model computes, element by element: which projection, norm and
//! table goes into queries, keys, values and gates, and what a head makes of them.
use crate::attention::{heads_first, project, rotated, AttentionWeights};
use crate::cache_laws;
use crate::causal_laws;
use crate::causal_laws::scored;
use crate::graph::{Node, Pairwise, Projection, SameShape, Scalar, Slot};
use crate::layer_laws::{converted, lemma_broadcast_row, norms_keep_length};
use crate::meaning;
use crate::meaning::{
    clipped, line, multiplied, repeated, reshaped, transposed, value, weighed, within, Arithmetic,
    Tensor, World,
};
use crate::ops;
use crate::pass::Step;
use crate::shapes;
use std::rc::Rc;
use vstd::prelude::*;

verus! {

/// The row of position `j` of sequence `i`.
pub open spec fn row_of<E>(x: Tensor<E>, i: int, j: int) -> Seq<E> {
    Seq::new(x.shape[2], |k: int| (x.at)(seq![i, j, k]))
}

/// Element `c` of a projection of `row`, with its bias if it has one.
pub open spec fn projected<E>(
    env: World<E>,
    map: Projection,
    bias: Slot,
    biased: bool,
    row: Seq<E>,
    c: int,
) -> E {
    if biased {
        (env.arithmetic.pair)(
            Pairwise::BroadcastAdd,
            (env.arithmetic.linear)(map, row)[c],
            ((env.leaf)(bias).at)(seq![c]),
        )
    } else {
        (env.arithmetic.linear)(map, row)[c]
    }
}

/// `width` elements of a projection of `row` from `start` on, normalised if there is a norm.
pub open spec fn head_row<E>(
    w: AttentionWeights,
    env: World<E>,
    map: Projection,
    bias: Slot,
    biased: bool,
    norm: Slot,
    normed: bool,
    row: Seq<E>,
    start: int,
) -> Seq<E> {
    let raw = Seq::new(w.head_dim as nat, |k: int| projected(env, map, bias, biased, row, start + k));
    if normed {
        (env.arithmetic.rms_norm)(w.norm_eps, line((env.leaf)(norm), 0, seq![0]), raw)
    } else {
        raw
    }
}

/// The row of a table for a position, in the format `f`.
pub open spec fn table_row<E>(t: Tensor<E>, position: int, f: int, a: Arithmetic<E>) -> Seq<E> {
    Seq::new(t.shape[1], |k: int| converted(a, t.format, f, (t.at)(seq![position, k])))
}

/// A row with the rotary embedding of a position, the tables in the format `f`.
pub open spec fn turned<E>(env: World<E>, row: Seq<E>, position: int, f: int) -> Seq<E> {
    let a = env.arithmetic;
    Seq::new(
        row.len(),
        |k: int|
            (a.rotate)(
                row,
                table_row((env.leaf)(Slot::Cos), position, f, a),
                table_row((env.leaf)(Slot::Sin), position, f, a),
            )[k],
    )
}

/// The tables reach over the positions of the step.
pub open spec fn tables_reach<E>(env: World<E>, step: Step) -> bool {
    &&& (env.leaf)(Slot::Cos).shape.len() == 2
    &&& (env.leaf)(Slot::Sin).shape.len() == 2
    &&& step.offset + step.len <= (env.leaf)(Slot::Cos).shape[0]
    &&& step.offset + step.len <= (env.leaf)(Slot::Sin).shape[0]
}

/// The tensors behind an attention layer and its input have the sizes that it expects, `past`
/// positions being cached.
pub open spec fn suits<E>(
    w: AttentionWeights,
    x: Tensor<E>,
    step: Step,
    env: World<E>,
    past: nat,
) -> bool {
    let a = env.arithmetic;
    let (h, g, d) = (w.num_heads as nat, w.num_kv_heads as nat, w.head_dim as nat);
    &&& w.fits()
    &&& norms_keep_length(a)
    &&& g * w.num_kv_groups as nat == h
    &&& x.shape.len() == 3
    &&& x.shape[0] == step.batch
    &&& x.shape[1] == step.len
    &&& w.q_out_dim == h * d * 2 || w.q_out_dim == h * d
    &&& (a.width)(Projection::Query) == w.q_out_dim
    &&& (a.width)(Projection::Key) == g * d
    &&& (a.width)(Projection::Value) == g * d
    &&& w.q_bias ==> (env.leaf)(Slot::QueryBias).shape == seq![w.q_out_dim as nat]
    &&& w.k_bias ==> (env.leaf)(Slot::KeyBias).shape == seq![g * d]
    &&& w.v_bias ==> (env.leaf)(Slot::ValueBias).shape == seq![g * d]
    &&& tables_reach(env, step)
    &&& if w.cached {
        &&& (env.leaf)(Slot::CachedKeys).shape == seq![step.batch as nat, g, past, d]
        &&& (env.leaf)(Slot::CachedValues).shape == seq![step.batch as nat, g, past, d]
    } else {
        past == 0
    }
    &&& step.masked ==> {
        let mask = (env.leaf)(Slot::Mask).shape;
        &&& mask.len() == 4
        &&& mask[0] == 1 || mask[0] == step.batch
        &&& mask[1] == 1 || mask[1] == h
        &&& mask[2] == 1 || mask[2] == step.len
        &&& mask[3] == 1 || mask[3] == past + step.len
    }
}

/// Rows split into heads.
pub proof fn lemma_in_heads<E>(t: Tensor<E>, b: nat, s: nat, h: nat, d: nat, idx: Seq<int>)
    requires
        t.shape == seq![b, s, h * d],
        within(seq![b, s, h, d], idx),
    ensures
        (reshaped(t, seq![b, s, h, d]).at)(idx) == (t.at)(
            seq![idx[0], idx[1], idx[2] * d + idx[3]],
        ),
        within(t.shape, seq![idx[0], idx[1], idx[2] * d + idx[3]]),
{
    cache_laws::lemma_split_place(b, s, h, d, idx);
}

/// Heads joined into rows.
pub proof fn lemma_from_heads<E>(t: Tensor<E>, b: nat, s: nat, h: nat, d: nat, idx: Seq<int>)
    requires
        t.shape == seq![b, s, h, d],
        within(seq![b, s, h * d], idx),
    ensures
        d > 0,
        within(t.shape, seq![idx[0], idx[1], idx[2] / d as int, idx[2] % d as int]),
        (reshaped(t, seq![b, s, h * d]).at)(idx) == (t.at)(
            seq![idx[0], idx[1], idx[2] / d as int, idx[2] % d as int],
        ),
{
    cache_laws::lemma_merged_place(b, s, h, d, idx);
    let from = seq![idx[0], idx[1], idx[2] / d as int, idx[2] % d as int];
    assert(0 <= idx[2] < seq![b, s, h * d][2]);
    assert(d > 0) by (nonlinear_arith)
        requires
            0 < h * d,
            h >= 0,
            d >= 0,
    ;
    assert(within(seq![b, s, h, d], from));
}

/// A projection, with its bias if it has one, element by element.
pub proof fn projection_of_rows<E>(
    map: Projection,
    bias: Slot,
    biased: bool,
    x: Rc<Node>,
    env: World<E>,
    idx: Seq<int>,
)
    requires
        bias != Slot::Carry,
        value(&x, env).shape.len() == 3,
        biased ==> (env.leaf)(bias).shape == seq![(env.arithmetic.width)(map)],
        within(value(&x, env).shape.update(2, (env.arithmetic.width)(map)), idx),
    ensures
        ({
            let r = value(&project(map, bias, biased, &x), env);
            &&& r.shape == value(&x, env).shape.update(2, (env.arithmetic.width)(map))
            &&& r.format == value(&x, env).format
            &&& (r.at)(idx) == projected(
                env,
                map,
                bias,
                biased,
                row_of(value(&x, env), idx[0], idx[1]),
                idx[2],
            )
        }),
{
    broadcast use meaning::group_value;

    let t = value(&x, env);
    let n = (env.arithmetic.width)(map);
    let plain = value(&ops::linear(map, &x), env);
    assert(line(t, 2, idx) =~= row_of(t, idx[0], idx[1])) by {
        assert forall|k: int| 0 <= k < t.shape[2] implies #[trigger] idx.update(2, k) == seq![
            idx[0],
            idx[1],
            k,
        ] by {
            assert(idx.update(2, k) =~= seq![idx[0], idx[1], k]);
        }
    }
    if biased {
        lemma_broadcast_row(plain.shape);
        meaning::lemma_clipped(plain.shape, idx);
        assert(0 <= idx[2] < plain.shape[2]);
        assert(clipped((env.leaf)(bias).shape, idx) =~= seq![idx[2]]);
    }
}

/// A projection in every position has its shape.
proof fn lemma_projection_shape<E>(
    map: Projection,
    bias: Slot,
    biased: bool,
    x: Rc<Node>,
    env: World<E>,
)
    requires
        bias != Slot::Carry,
        value(&x, env).shape.len() == 3,
        biased ==> (env.leaf)(bias).shape == seq![(env.arithmetic.width)(map)],
    ensures
        ({
            let r = value(&project(map, bias, biased, &x), env);
            &&& r.shape == value(&x, env).shape.update(2, (env.arithmetic.width)(map))
            &&& r.format == value(&x, env).format
        }),
{
    broadcast use meaning::group_value;

    if biased {
        lemma_broadcast_row(value(&x, env).shape.update(2, (env.arithmetic.width)(map)));
    }
}

/// A projection split into heads, heads before positions.
proof fn lemma_heads<E>(
    map: Projection,
    bias: Slot,
    biased: bool,
    x: Rc<Node>,
    step: Step,
    heads: usize,
    width: usize,
    env: World<E>,
    idx: Seq<int>,
)
    requires
        bias != Slot::Carry,
        value(&x, env).shape.len() == 3,
        value(&x, env).shape[0] == step.batch,
        value(&x, env).shape[1] == step.len,
        (env.arithmetic.width)(map) == heads as nat * width as nat,
        biased ==> (env.leaf)(bias).shape == seq![(env.arithmetic.width)(map)],
        within(seq![step.batch as nat, heads as nat, step.len as nat, width as nat], idx),
    ensures
        ({
            let r = value(&heads_first(&project(map, bias, biased, &x), step, heads, width), env);
            &&& (r.at)(idx) == projected(
                env,
                map,
                bias,
                biased,
                row_of(value(&x, env), idx[0], idx[2]),
                idx[1] * width + idx[3],
            )
        }),
{
    broadcast use meaning::group_value;

    let (b, s, h, d) = (step.batch as nat, step.len as nat, heads as nat, width as nat);
    let p = project(map, bias, biased, &x);
    let t = value(&p, env);
    lemma_projection_shape(map, bias, biased, x, env);
    assert(t.shape =~= seq![b, s, h * d]);
    let split = reshaped(t, seq![b, s, h, d]);
    let full = seq![b, h, s, d];
    assert(0 <= idx[0] < full[0] && 0 <= idx[1] < full[1] && 0 <= idx[2] < full[2] && 0 <= idx[3]
        < full[3]);
    let from = seq![idx[0], idx[2], idx[1], idx[3]];
    assert(idx.update(1, idx[2]).update(2, idx[1]) =~= from);
    assert(split.shape.update(1, split.shape[2]).update(2, split.shape[1]) =~= full);
    assert(within(seq![b, s, h, d], from));
    lemma_in_heads(t, b, s, h, d, from);
    projection_of_rows(map, bias, biased, x, env, seq![from[0], from[1], from[2] * d + from[3]]);
}

proof fn lemma_heads_shape<E>(
    map: Projection,
    bias: Slot,
    biased: bool,
    x: Rc<Node>,
    step: Step,
    heads: usize,
    width: usize,
    env: World<E>,
)
    requires
        bias != Slot::Carry,
        value(&x, env).shape.len() == 3,
        biased ==> (env.leaf)(bias).shape == seq![(env.arithmetic.width)(map)],
    ensures
        ({
            let r = value(&heads_first(&project(map, bias, biased, &x), step, heads, width), env);
            &&& r.shape == seq![step.batch as nat, heads as nat, step.len as nat, width as nat]
            &&& r.format == value(&x, env).format
        }),
{
    broadcast use meaning::group_value;

    lemma_projection_shape(map, bias, biased, x, env);
    let r = value(&heads_first(&project(map, bias, biased, &x), step, heads, width), env);
    assert(r.shape =~= seq![step.batch as nat, heads as nat, step.len as nat, width as nat]);
}

/// The keys before the rotary embedding: each head of each position is a part of the key projection
/// of that position, normalised where the layer has a norm for keys.
pub proof fn keys_are_projected<E>(
    w: AttentionWeights,
    x: Rc<Node>,
    step: Step,
    env: World<E>,
    past: nat,
    idx: Seq<int>,
)
    requires
        suits(w, value(&x, env), step, env, past),
        within(
            seq![
                step.batch as nat,
                w.num_kv_heads as nat,
                step.len as nat,
                w.head_dim as nat,
            ],
            idx,
        ),
    ensures
        ({
            let r = value(&w.key(x, step), env);
            &&& r.shape == seq![
                step.batch as nat,
                w.num_kv_heads as nat,
                step.len as nat,
                w.head_dim as nat,
            ]
            &&& r.format == value(&x, env).format
            &&& (r.at)(idx) == head_row(
                w,
                env,
                Projection::Key,
                Slot::KeyBias,
                w.k_bias,
                Slot::KeyNorm,
                w.k_norm,
                row_of(value(&x, env), idx[0], idx[2]),
                idx[1] * w.head_dim,
            )[idx[3]]
        }),
{
    lemma_normed_heads(
        w,
        Projection::Key,
        Slot::KeyBias,
        w.k_bias,
        Slot::KeyNorm,
        w.k_norm,
        x,
        step,
        w.num_kv_heads,
        env,
        idx,
    );
}

/// Heads of a projection, normalised.
proof fn lemma_normed_heads<E>(
    w: AttentionWeights,
    map: Projection,
    bias: Slot,
    biased: bool,
    norm: Slot,
    is_normed: bool,
    x: Rc<Node>,
    step: Step,
    heads: usize,
    env: World<E>,
    idx: Seq<int>,
)
    requires
        bias != Slot::Carry,
        norm != Slot::Carry,
        norms_keep_length(env.arithmetic),
        value(&x, env).shape.len() == 3,
        value(&x, env).shape[0] == step.batch,
        value(&x, env).shape[1] == step.len,
        (env.arithmetic.width)(map) == heads as nat * w.head_dim as nat,
        biased ==> (env.leaf)(bias).shape == seq![(env.arithmetic.width)(map)],
        within(seq![step.batch as nat, heads as nat, step.len as nat, w.head_dim as nat], idx),
    ensures
        ({
            let n = crate::attention::head_norm(
                &heads_first(&project(map, bias, biased, &x), step, heads, w.head_dim),
                norm,
                is_normed,
                w.norm_eps,
                crate::graph::Dims::Four(step.batch, heads, step.len, w.head_dim),
            );
            let r = value(&n, env);
            &&& r.shape == seq![step.batch as nat, heads as nat, step.len as nat, w.head_dim as nat]
            &&& r.format == value(&x, env).format
            &&& (r.at)(idx) == head_row(
                w,
                env,
                map,
                bias,
                biased,
                norm,
                is_normed,
                row_of(value(&x, env), idx[0], idx[2]),
                idx[1] * w.head_dim,
            )[idx[3]]
        }),
{
    broadcast use meaning::group_value;

    let d = w.head_dim as nat;
    let full = seq![step.batch as nat, heads as nat, step.len as nat, d];
    let plain = heads_first(&project(map, bias, biased, &x), step, heads, w.head_dim);
    let t = value(&plain, env);
    lemma_heads_shape(map, bias, biased, x, step, heads, w.head_dim, env);
    let row = row_of(value(&x, env), idx[0], idx[2]);
    let start = idx[1] * w.head_dim;
    let raw = Seq::new(d, |k: int| projected(env, map, bias, biased, row, start + k));
    assert(0 <= idx[3] < full[3]);
    assert(line(t, 3, idx) =~= raw) by {
        assert forall|k: int| 0 <= k < d implies (t.at)(#[trigger] idx.update(3, k)) == raw[k] by {
            let i = idx.update(3, k);
            assert(within(full, i));
            lemma_heads(map, bias, biased, x, step, heads, w.head_dim, env, i);
        }
    }
    assert(idx.update(3, idx[3]) =~= idx);
    assert((t.at)(idx) == raw[idx[3]]);
    if is_normed {
        causal_laws::lemma_normed_flat(t, (env.leaf)(norm), w.norm_eps, env.arithmetic);
        assert(t.shape.update(3, t.shape.last()) =~= t.shape);
    }
}

/// The queries before the rotary embedding: each head of each position is a part of the query
/// projection of that position, normalised where the layer has a norm for queries. Where the
/// projection holds gates, they stand behind the query of each head.
#[verifier::rlimit(40)]
pub proof fn queries_are_projected<E>(
    w: AttentionWeights,
    x: Rc<Node>,
    step: Step,
    env: World<E>,
    past: nat,
    idx: Seq<int>,
)
    requires
        suits(w, value(&x, env), step, env, past),
        within(
            seq![step.batch as nat, w.num_heads as nat, step.len as nat, w.head_dim as nat],
            idx,
        ),
    ensures
        ({
            let d = w.head_dim;
            let r = value(&w.query(x, step), env);
            let row = row_of(value(&x, env), idx[0], idx[2]);
            let gated = w.q_out_dim == w.num_heads * d * 2;
            &&& r.shape == seq![
                step.batch as nat,
                w.num_heads as nat,
                step.len as nat,
                d as nat,
            ]
            &&& r.format == value(&x, env).format
            &&& (r.at)(idx) == head_row(
                w,
                env,
                Projection::Query,
                Slot::QueryBias,
                w.q_bias,
                Slot::QueryNorm,
                w.q_norm,
                row,
                if gated {
                    idx[1] * (2 * d)
                } else {
                    idx[1] * d
                },
            )[idx[3]]
            &&& gated ==> (value(&w.gate(x, step), env).at)(seq![idx[0], idx[2], idx[1], idx[3]])
                == projected(
                env,
                Projection::Query,
                Slot::QueryBias,
                w.q_bias,
                row,
                idx[1] * (2 * d) + d + idx[3],
            )
        }),
{
    broadcast use meaning::group_value;

    let (b, s, h, d) = (
        step.batch as nat,
        step.len as nat,
        w.num_heads as nat,
        w.head_dim as nat,
    );
    let full = seq![b, h, s, d];
    assert(0 <= idx[0] < full[0] && 0 <= idx[1] < full[1] && 0 <= idx[2] < full[2] && 0 <= idx[3]
        < full[3]);
    if !w.has_gate() {
        lemma_normed_heads(
            w,
            Projection::Query,
            Slot::QueryBias,
            w.q_bias,
            Slot::QueryNorm,
            w.q_norm,
            x,
            step,
            w.num_heads,
            env,
            idx,
        );
    } else {
        let p = w.projected_query(x);
        let t = value(&p, env);
        lemma_projection_shape(Projection::Query, Slot::QueryBias, w.q_bias, x, env);
        assert(w.q_out_dim == h * (2 * d)) by (nonlinear_arith)
            requires
                w.q_out_dim == h * d * 2,
        ;
        assert(t.shape =~= seq![b, s, h * (2 * d)]);
        let both = value(&w.query_and_gate(x, step), env);
        assert(both.shape =~= seq![b, s, h, 2 * d]);
        let states = value(&ops::narrow(&w.query_and_gate(x, step), 3, 0, w.head_dim), env);
        let gates = value(&w.gate(x, step), env);
        let turned_full = seq![b, s, h, d];
        assert(states.shape =~= turned_full);
        assert(gates.shape =~= turned_full);
        let row = row_of(value(&x, env), idx[0], idx[2]);
        let start = idx[1] * (2 * w.head_dim);
        let raw = Seq::new(
            d,
            |k: int|
                projected(env, Projection::Query, Slot::QueryBias, w.q_bias, row, start + k),
        );
        let at = seq![idx[0], idx[2], idx[1], idx[3]];
        assert(within(turned_full, at));
        assert forall|k: int| 0 <= k < 2 * d implies (both.at)(#[trigger] at.update(3, k))
            == projected(env, Projection::Query, Slot::QueryBias, w.q_bias, row, start + k) by {
            let i = at.update(3, k);
            assert(within(seq![b, s, h, 2 * d], i));
            lemma_in_heads(t, b, s, h, 2 * d, i);
            projection_of_rows(
                Projection::Query,
                Slot::QueryBias,
                w.q_bias,
                x,
                env,
                seq![i[0], i[1], i[2] * (2 * d) + i[3]],
            );
        }
        assert(line(states, 3, at) =~= raw) by {
            assert forall|k: int| 0 <= k < d implies (states.at)(#[trigger] at.update(3, k))
                == raw[k] by {
                let i = at.update(3, k);
                assert(within(turned_full, i));
                assert(i.update(3, i[3] + 0) =~= i);
            }
        }
        assert(at.update(3, idx[3]) =~= at);
        assert((states.at)(at) == raw[idx[3]]);
        assert((gates.at)(at) == (both.at)(at.update(3, at[3] + d)));
        if w.q_norm {
            causal_laws::lemma_normed_flat(
                states,
                (env.leaf)(Slot::QueryNorm),
                w.norm_eps,
                env.arithmetic,
            );
        }
        assert(idx.update(1, idx[2]).update(2, idx[1]) =~= at);
        let r = value(&w.query(x, step), env);
        assert(r.shape =~= full);
    }
}

/// The row of a table that was cut to the positions of a step.
proof fn lemma_table<E>(table: Slot, like: Rc<Node>, step: Step, env: World<E>, i: int)
    requires
        table != Slot::Carry,
        (env.leaf)(table).shape.len() == 2,
        step.offset + step.len <= (env.leaf)(table).shape[0],
        0 <= i < step.len,
    ensures
        ({
            let cut = ops::pair(
                Pairwise::FormatOf,
                &ops::narrow(&ops::leaf(table), 0, step.offset, step.len),
                &like,
            );
            line(value(&cut, env), 1, seq![i, 0]) == table_row(
                (env.leaf)(table),
                step.offset + i,
                value(&like, env).format,
                env.arithmetic,
            )
        }),
{
    broadcast use meaning::group_value;

    let t = (env.leaf)(table);
    let f = value(&like, env).format;
    let part = meaning::narrowed(t, 0, step.offset as int, step.len as nat);
    let cut = meaning::formatted(part, f, env.arithmetic);
    let first = seq![i, 0];
    assert(line(cut, 1, first) =~= table_row(t, step.offset + i, f, env.arithmetic)) by {
        assert forall|k: int| 0 <= k < t.shape[1] implies (cut.at)(#[trigger] first.update(1, k))
            == converted(env.arithmetic, t.format, f, (t.at)(seq![step.offset + i, k])) by {
            let at = first.update(1, k);
            assert(at =~= seq![i, k]);
            assert(within(part.shape, at));
            assert(at.update(0, at[0] + step.offset) =~= seq![step.offset + i, k]);
        }
    }
}

/// The rotary embedding turns each row by the angles of its own position, counted from the first
/// position of the context.
pub proof fn rows_are_turned_by_their_position<E>(
    x: Rc<Node>,
    like: Rc<Node>,
    step: Step,
    env: World<E>,
    idx: Seq<int>,
)
    requires
        tables_reach(env, step),
        value(&x, env).shape.len() == 4,
        value(&x, env).shape[2] == step.len,
        within(value(&x, env).shape, idx),
    ensures
        ({
            let r = value(&rotated(&x, &like, step), env);
            &&& r.shape == value(&x, env).shape
            &&& r.format == value(&x, env).format
            &&& (r.at)(idx) == turned(
                env,
                line(value(&x, env), 3, idx),
                step.offset + idx[2],
                value(&like, env).format,
            )[idx[3]]
        }),
{
    broadcast use meaning::group_value;

    lemma_table(Slot::Cos, like, step, env, idx[2]);
    lemma_table(Slot::Sin, like, step, env, idx[2]);
    assert(0 <= idx[3] < value(&x, env).shape[3]);
}

/// The keys that an attention layer leaves behind: those that were cached, and behind them the
/// projected keys of the step, each turned by its position.
#[verifier::rlimit(40)]
pub proof fn kept_keys<E>(
    w: AttentionWeights,
    x: Rc<Node>,
    step: Step,
    env: World<E>,
    past: nat,
    idx: Seq<int>,
)
    requires
        suits(w, value(&x, env), step, env, past),
        within(
            seq![
                step.batch as nat,
                w.num_kv_heads as nat,
                past + step.len as nat,
                w.head_dim as nat,
            ],
            idx,
        ),
    ensures
        ({
            let r = value(&w.all_keys(x, step), env);
            let i = idx[2] - past;
            &&& r.shape == seq![
                step.batch as nat,
                w.num_kv_heads as nat,
                past + step.len as nat,
                w.head_dim as nat,
            ]
            &&& (r.at)(idx) == (if idx[2] < past {
                ((env.leaf)(Slot::CachedKeys).at)(idx)
            } else {
                turned(
                    env,
                    head_row(
                        w,
                        env,
                        Projection::Key,
                        Slot::KeyBias,
                        w.k_bias,
                        Slot::KeyNorm,
                        w.k_norm,
                        row_of(value(&x, env), idx[0], i),
                        idx[1] * w.head_dim,
                    ),
                    step.offset + i,
                    value(&x, env).format,
                )[idx[3]]
            })
        }),
{
    broadcast use meaning::group_value;

    let (b, s, g, d) = (
        step.batch as nat,
        step.len as nat,
        w.num_kv_heads as nat,
        w.head_dim as nat,
    );
    let all = seq![b, g, past + s, d];
    let full = seq![b, g, s, d];
    assert(0 <= idx[0] < all[0] && 0 <= idx[1] < all[1] && 0 <= idx[2] < all[2] && 0 <= idx[3]
        < all[3]);
    let key = value(&w.key(x, step), env);
    let fresh = value(&rotated(&w.key(x, step), &w.query(x, step), step), env);
    lemma_key_shape(w, x, step, env, past);
    lemma_query_format(w, x, step, env, past);
    lemma_rotated_shape(w.key(x, step), w.query(x, step), step, env);
    let r = value(&w.all_keys(x, step), env);
    assert(r.shape =~= all);
    if idx[2] >= past {
        let i = idx[2] - past;
        let at = idx.update(2, i);
        assert(within(full, at));
        let row = head_row(
            w,
            env,
            Projection::Key,
            Slot::KeyBias,
            w.k_bias,
            Slot::KeyNorm,
            w.k_norm,
            row_of(value(&x, env), idx[0], i),
            idx[1] * w.head_dim,
        );
        assert(line(key, 3, at) =~= row) by {
            assert forall|k: int| 0 <= k < d implies (key.at)(#[trigger] at.update(3, k))
                == row[k] by {
                assert(within(full, at.update(3, k)));
                keys_are_projected(w, x, step, env, past, at.update(3, k));
            }
        }
        rows_are_turned_by_their_position(w.key(x, step), w.query(x, step), step, env, at);
        if !w.cached {
            assert(at =~= idx);
        }
    }
}

proof fn lemma_key_shape<E>(
    w: AttentionWeights,
    x: Rc<Node>,
    step: Step,
    env: World<E>,
    past: nat,
)
    requires
        suits(w, value(&x, env), step, env, past),
    ensures
        value(&w.key(x, step), env).shape == seq![
            step.batch as nat,
            w.num_kv_heads as nat,
            step.len as nat,
            w.head_dim as nat,
        ],
{
    broadcast use meaning::group_value;

    lemma_heads_shape(
        Projection::Key,
        Slot::KeyBias,
        w.k_bias,
        x,
        step,
        w.num_kv_heads,
        w.head_dim,
        env,
    );
}

/// Queries have their shape, and the format of the input.
proof fn lemma_query_format<E>(
    w: AttentionWeights,
    x: Rc<Node>,
    step: Step,
    env: World<E>,
    past: nat,
)
    requires
        suits(w, value(&x, env), step, env, past),
    ensures
        value(&w.query(x, step), env).format == value(&x, env).format,
        value(&w.query(x, step), env).shape == seq![
            step.batch as nat,
            w.num_heads as nat,
            step.len as nat,
            w.head_dim as nat,
        ],
        w.has_gate() ==> value(&w.gate(x, step), env).format == value(&x, env).format
            && value(&w.gate(x, step), env).shape == seq![
            step.batch as nat,
            step.len as nat,
            w.num_heads as nat,
            w.head_dim as nat,
        ],
{
    broadcast use meaning::group_value;

    let (b, s, h, d) = (
        step.batch as nat,
        step.len as nat,
        w.num_heads as nat,
        w.head_dim as nat,
    );
    lemma_projection_shape(Projection::Query, Slot::QueryBias, w.q_bias, x, env);
    if w.has_gate() {
        let both = value(&w.query_and_gate(x, step), env);
        assert(both.shape.update(3, d) =~= seq![b, s, h, d]);
    }
    assert(value(&w.query(x, step), env).shape =~= seq![b, h, s, d]);
}

proof fn lemma_rotated_shape<E>(x: Rc<Node>, like: Rc<Node>, step: Step, env: World<E>)
    ensures
        value(&rotated(&x, &like, step), env).shape == value(&x, env).shape,
        value(&rotated(&x, &like, step), env).format == value(&x, env).format,
{
    broadcast use meaning::group_value;

}

/// The values that an attention layer leaves behind: those that were cached, and behind them the
/// projected values of the step, as they are.
#[verifier::rlimit(40)]
pub proof fn kept_values<E>(
    w: AttentionWeights,
    x: Rc<Node>,
    step: Step,
    env: World<E>,
    past: nat,
    idx: Seq<int>,
)
    requires
        suits(w, value(&x, env), step, env, past),
        within(
            seq![
                step.batch as nat,
                w.num_kv_heads as nat,
                past + step.len as nat,
                w.head_dim as nat,
            ],
            idx,
        ),
    ensures
        ({
            let r = value(&w.all_values(x, step), env);
            let i = idx[2] - past;
            &&& r.shape == seq![
                step.batch as nat,
                w.num_kv_heads as nat,
                past + step.len as nat,
                w.head_dim as nat,
            ]
            &&& (r.at)(idx) == (if idx[2] < past {
                ((env.leaf)(Slot::CachedValues).at)(idx)
            } else {
                projected(
                    env,
                    Projection::Value,
                    Slot::ValueBias,
                    w.v_bias,
                    row_of(value(&x, env), idx[0], i),
                    idx[1] * w.head_dim + idx[3],
                )
            })
        }),
{
    broadcast use meaning::group_value;

    let (b, s, g, d) = (
        step.batch as nat,
        step.len as nat,
        w.num_kv_heads as nat,
        w.head_dim as nat,
    );
    let all = seq![b, g, past + s, d];
    let full = seq![b, g, s, d];
    assert(0 <= idx[0] < all[0] && 0 <= idx[1] < all[1] && 0 <= idx[2] < all[2] && 0 <= idx[3]
        < all[3]);
    lemma_heads_shape(
        Projection::Value,
        Slot::ValueBias,
        w.v_bias,
        x,
        step,
        w.num_kv_heads,
        w.head_dim,
        env,
    );
    let r = value(&w.all_values(x, step), env);
    assert(r.shape =~= all);
    if idx[2] >= past {
        let at = idx.update(2, idx[2] - past);
        assert(within(full, at));
        lemma_heads(
            Projection::Value,
            Slot::ValueBias,
            w.v_bias,
            x,
            step,
            w.num_kv_heads,
            w.head_dim,
            env,
            at,
        );
        if !w.cached {
            assert(at =~= idx);
        }
    }
}

/// What a head makes of a query: the values weighed by the softmax of the scores of their keys. A
/// score is the product of query and key over the root of their width, with what the mask says of
/// the position added to it.
pub open spec fn attended_to<E>(
    a: Arithmetic<E>,
    query: Seq<E>,
    keys: Seq<Seq<E>>,
    values: Seq<E>,
    mask: Option<Seq<E>>,
    width: usize,
) -> E {
    let scores = Seq::new(
        keys.len(),
        |t: int|
            {
                let score = (a.times)((a.dot)(query, keys[t]), Scalar::InvSqrt(width));
                match mask {
                    Some(m) => (a.pair)(Pairwise::BroadcastAdd, score, m[t]),
                    None => score,
                }
            },
    );
    (a.dot)(Seq::new(keys.len(), |t: int| (a.softmax)(scores)[t]), values)
}

/// The rows of head `g` of sequence `i`, position by position.
pub open spec fn rows_of_head<E>(t: Tensor<E>, i: int, g: int) -> Seq<Seq<E>> {
    Seq::new(
        t.shape[2],
        |p: int| Seq::new(t.shape[3], |k: int| (t.at)(seq![i, g, p, k])),
    )
}

/// Element `k` of head `g` of sequence `i`, position by position.
pub open spec fn column_of_head<E>(t: Tensor<E>, i: int, g: int, k: int) -> Seq<E> {
    Seq::new(t.shape[2], |p: int| (t.at)(seq![i, g, p, k]))
}

/// What the mask says of each of `n` positions to position `j` of head `h` of sequence `i`.
pub open spec fn mask_row<E>(
    mask: Tensor<E>,
    f: int,
    a: Arithmetic<E>,
    i: int,
    h: int,
    j: int,
    n: nat,
) -> Seq<E> {
    Seq::new(
        n,
        |p: int|
            converted(a, mask.format, f, (mask.at)(clipped(mask.shape, seq![i, h, j, p]))),
    )
}

/// The heads of keys or values that query heads share.
proof fn lemma_shared_head<E>(t: Tensor<E>, groups: nat, idx: Seq<int>)
    requires
        t.shape.len() == 4,
        within(t.shape.update(1, t.shape[1] * groups), idx),
    ensures
        groups > 0,
        within(t.shape, idx.update(1, idx[1] / groups as int)),
        (repeated(t, groups).at)(idx) == (t.at)(idx.update(1, idx[1] / groups as int)),
{
    let full = t.shape.update(1, t.shape[1] * groups);
    assert(0 <= idx[1] < full[1]);
    let (k, n, h) = (idx[1], groups as int, t.shape[1] as int);
    assert(n > 0 && 0 <= k / n < h) by (nonlinear_arith)
        requires
            0 <= k < h * n,
            n >= 0,
            h >= 0,
    ;
    let at = idx.update(1, k / n);
    assert forall|m: int| 0 <= m < 4 implies 0 <= #[trigger] at[m] < t.shape[m] by {
        assert(0 <= idx[m] < full[m] || m == 1);
    }
}

/// What the heads attend to, heads before positions.
#[verifier::rlimit(40)]
pub proof fn lemma_attended<E>(
    q: Tensor<E>,
    k: Tensor<E>,
    v: Tensor<E>,
    mask: Option<Tensor<E>>,
    width: usize,
    groups: nat,
    a: Arithmetic<E>,
    idx: Seq<int>,
)
    requires
        q.shape.len() == 4,
        k.shape.len() == 4,
        v.shape == k.shape,
        k.shape[0] == q.shape[0],
        k.shape[1] * groups == q.shape[1],
        k.shape[3] == q.shape[3],
        mask matches Some(m) ==> {
            &&& m.shape.len() == 4
            &&& forall|x: int|
                0 <= x < 4 ==> (#[trigger] m.shape[x] == 1 || m.shape[x] == (if x == 3 {
                    k.shape[2]
                } else {
                    q.shape[x]
                }))
        },
        within(q.shape, idx),
    ensures
        ({
            let scores = scored(q, repeated(k, groups), width, a);
            let sums = match mask {
                Some(m) => causal_laws::masked(scores, m, a),
                None => scores,
            };
            let r = multiplied(weighed(sums, a), repeated(v, groups), a);
            let g = idx[1] / groups as int;
            &&& r.shape == q.shape
            &&& r.format == q.format
            &&& (r.at)(idx) == attended_to(
                a,
                line(q, 3, idx),
                rows_of_head(k, idx[0], g),
                column_of_head(v, idx[0], g, idx[3]),
                match mask {
                    Some(m) => Some(mask_row(m, m.format, a, idx[0], idx[1], idx[2], k.shape[2])),
                    None => None,
                },
                width,
            )
        }),
{
    let n = k.shape[2];
    let g = idx[1] / groups as int;
    let full = q.shape.update(3, n);
    let (kr, vr) = (repeated(k, groups), repeated(v, groups));
    assert(kr.shape =~= seq![q.shape[0], q.shape[1], n, q.shape[3]]);
    let kt = transposed(kr, 2, 3);
    assert(kt.shape =~= seq![q.shape[0], q.shape[1], q.shape[3], n]);
    let scores = scored(q, kr, width, a);
    assert(scores.shape =~= full);
    let sums = match mask {
        Some(m) => causal_laws::masked(scores, m, a),
        None => scores,
    };
    if let Some(m) = mask {
        shapes::lemma_broadcast4(full, m.shape);
    }
    assert(sums.shape =~= full);
    let keys = rows_of_head(k, idx[0], g);
    let row = line(q, 3, idx);
    let masks = match mask {
        Some(m) => Some(mask_row(m, m.format, a, idx[0], idx[1], idx[2], n)),
        None => None,
    };
    let expected = Seq::new(
        n,
        |t: int|
            {
                let score = (a.times)((a.dot)(row, keys[t]), Scalar::InvSqrt(width));
                match masks {
                    Some(m) => (a.pair)(Pairwise::BroadcastAdd, score, m[t]),
                    None => score,
                }
            },
    );
    assert(0 <= idx[0] < q.shape[0] && 0 <= idx[1] < q.shape[1] && 0 <= idx[2] < q.shape[2]
        && 0 <= idx[3] < q.shape[3]);
    assert forall|t: int| 0 <= t < n implies (sums.at)(#[trigger] idx.update(3, t))
        == expected[t] by {
        let at = idx.update(3, t);
        assert(within(full, at));
        assert(line(q, 3, at) =~= row) by {
            assert forall|c: int| 0 <= c < q.shape[3] implies #[trigger] at.update(3, c)
                == idx.update(3, c) by {
                assert(at.update(3, c) =~= idx.update(3, c));
            }
        }
        assert(line(kt, 2, at) =~= keys[t]) by {
            assert forall|c: int| 0 <= c < q.shape[3] implies (kt.at)(#[trigger] at.update(2, c))
                == keys[t][c] by {
                let col = at.update(2, c);
                assert(within(kt.shape, col));
                let from = col.update(2, col[3]).update(3, col[2]);
                assert(from =~= seq![idx[0], idx[1], t, c]);
                assert(within(kr.shape, from));
                lemma_shared_head(k, groups, from);
                assert(from.update(1, from[1] / groups as int) =~= seq![idx[0], g, t, c]);
            }
        }
        if let Some(m) = mask {
            meaning::lemma_clipped(full, at);
            assert(at =~= seq![idx[0], idx[1], idx[2], t]);
        }
    }
    let weights = weighed(sums, a);
    assert(line(weights, 3, idx) =~= Seq::new(n, |t: int| (a.softmax)(expected)[t])) by {
        assert forall|t: int| 0 <= t < n implies (weights.at)(#[trigger] idx.update(3, t)) == (
        a.softmax)(expected)[t] by {
            let at = idx.update(3, t);
            assert(within(full, at));
            assert(line(sums, 3, at) =~= expected) by {
                assert forall|c: int| 0 <= c < n implies #[trigger] at.update(3, c) == idx.update(
                    3,
                    c,
                ) by {
                    assert(at.update(3, c) =~= idx.update(3, c));
                }
            }
        }
    }
    assert(line(vr, 2, idx) =~= column_of_head(v, idx[0], g, idx[3])) by {
        assert forall|t: int| 0 <= t < n implies (vr.at)(#[trigger] idx.update(2, t)) == (v.at)(
            seq![idx[0], g, t, idx[3]],
        ) by {
            let at = idx.update(2, t);
            assert(within(vr.shape, at));
            lemma_shared_head(v, groups, at);
            assert(at.update(1, at[1] / groups as int) =~= seq![idx[0], g, t, idx[3]]);
        }
    }
    let r = multiplied(weights, vr, a);
    assert(r.shape =~= q.shape);
    assert(vr.shape =~= kr.shape);
}

/// Element `k` of head `hd` at position `j` of sequence `i`, before the output projection: what the
/// head attends to and, where the query projection holds gates, multiplied by the logistic function
/// of its gate.
pub open spec fn head_output<E>(
    w: AttentionWeights,
    env: World<E>,
    x: Tensor<E>,
    keys: Tensor<E>,
    values: Tensor<E>,
    step: Step,
    i: int,
    j: int,
    hd: int,
    k: int,
) -> E {
    let a = env.arithmetic;
    let d = w.head_dim;
    let g = hd / w.num_kv_groups as int;
    let gated = w.q_out_dim == w.num_heads * d * 2;
    let start = if gated {
        hd * (2 * d)
    } else {
        hd * d
    };
    let query = head_row(
        w,
        env,
        Projection::Query,
        Slot::QueryBias,
        w.q_bias,
        Slot::QueryNorm,
        w.q_norm,
        row_of(x, i, j),
        start,
    );
    let found = attended_to(
        a,
        turned(env, query, step.offset + j, x.format),
        rows_of_head(keys, i, g),
        column_of_head(values, i, g, k),
        if step.masked {
            Some(mask_row((env.leaf)(Slot::Mask), x.format, a, i, hd, j, keys.shape[2]))
        } else {
            None
        },
        d,
    );
    if gated {
        let gate = projected(
            env,
            Projection::Query,
            Slot::QueryBias,
            w.q_bias,
            row_of(x, i, j),
            start + d + k,
        );
        (a.pair)(
            Pairwise::BroadcastMul,
            found,
            converted(
                a,
                a.single,
                x.format,
                (a.apply)(SameShape::Sigmoid, converted(a, x.format, a.single, gate)),
            ),
        )
    } else {
        found
    }
}

/// The context of a head, and its gate, element by element.
#[verifier::rlimit(40)]
proof fn lemma_head_output<E>(
    w: AttentionWeights,
    x: Rc<Node>,
    step: Step,
    env: World<E>,
    past: nat,
    at: Seq<int>,
)
    requires
        suits(w, value(&x, env), step, env, past),
        within(
            seq![step.batch as nat, step.len as nat, w.num_heads as nat, w.head_dim as nat],
            at,
        ),
    ensures
        ({
            let made = if w.has_gate() {
                crate::attention::gated(&w.context(x, step), &w.gate(x, step))
            } else {
                w.context(x, step)
            };
            let r = value(&made, env);
            &&& r.shape == seq![
                step.batch as nat,
                step.len as nat,
                w.num_heads as nat,
                w.head_dim as nat,
            ]
            &&& (r.at)(at) == head_output(
                w,
                env,
                value(&x, env),
                value(&w.all_keys(x, step), env),
                value(&w.all_values(x, step), env),
                step,
                at[0],
                at[1],
                at[2],
                at[3],
            )
        }),
{
    broadcast use meaning::group_value;

    let a = env.arithmetic;
    let t = value(&x, env);
    let (b, s, h, g, d) = (
        step.batch as nat,
        step.len as nat,
        w.num_heads as nat,
        w.num_kv_heads as nat,
        w.head_dim as nat,
    );
    let groups = w.num_kv_groups as nat;
    let full = seq![b, s, h, d];
    assert(0 <= at[0] < full[0] && 0 <= at[1] < full[1] && 0 <= at[2] < full[2] && 0 <= at[3]
        < full[3]);
    let idx = seq![at[0], at[2], at[1], at[3]];
    let turned_full = seq![b, h, s, d];
    assert(within(turned_full, idx));
    let query = w.query(x, step);
    let qt = value(&query, env);
    lemma_query_format(w, x, step, env, past);
    lemma_rotated_shape(query, query, step, env);
    let q = value(&rotated(&query, &query, step), env);
    let keys = value(&w.all_keys(x, step), env);
    let values = value(&w.all_values(x, step), env);
    let (i, hd) = (at[0], at[2]);
    assert(g > 0) by (nonlinear_arith)
        requires
            g * groups == h,
            0 <= hd < h,
            g >= 0,
    ;
    let first = seq![0int, 0, 0, 0];
    assert(within(seq![b, g, past + s, d], first));
    kept_keys(w, x, step, env, past, first);
    kept_values(w, x, step, env, past, first);
    let mask = if step.masked {
        Some(meaning::formatted((env.leaf)(Slot::Mask), t.format, a))
    } else {
        None
    };
    lemma_attended(q, keys, values, mask, w.head_dim, groups, a, idx);
    let row = head_row(
        w,
        env,
        Projection::Query,
        Slot::QueryBias,
        w.q_bias,
        Slot::QueryNorm,
        w.q_norm,
        row_of(t, at[0], at[1]),
        if w.has_gate() {
            hd * (2 * w.head_dim)
        } else {
            hd * w.head_dim
        },
    );
    assert(line(qt, 3, idx) =~= row) by {
        assert forall|k: int| 0 <= k < d implies (qt.at)(#[trigger] idx.update(3, k)) == row[k] by {
            assert(within(turned_full, idx.update(3, k)));
            queries_are_projected(w, x, step, env, past, idx.update(3, k));
        }
    }
    assert(line(q, 3, idx) =~= turned(env, row, step.offset + at[1], t.format)) by {
        assert forall|k: int| 0 <= k < d implies (q.at)(#[trigger] idx.update(3, k)) == turned(
            env,
            row,
            step.offset + at[1],
            t.format,
        )[k] by {
            let c = idx.update(3, k);
            assert(within(turned_full, c));
            rows_are_turned_by_their_position(query, query, step, env, c);
            assert(line(qt, 3, c) =~= row) by {
                assert forall|m: int| 0 <= m < d implies #[trigger] c.update(3, m) == idx.update(
                    3,
                    m,
                ) by {
                    assert(c.update(3, m) =~= idx.update(3, m));
                }
            }
        }
    }
    if step.masked {
        let m = (env.leaf)(Slot::Mask);
        let n = keys.shape[2];
        let (l, r) = (
            mask_row(mask->0, t.format, a, at[0], at[2], at[1], n),
            mask_row(m, t.format, a, at[0], at[2], at[1], n),
        );
        assert(l =~= r) by {
            assert forall|p: int| 0 <= p < n implies l[p] == r[p] by {
                let c = clipped(m.shape, seq![at[0], at[2], at[1], p]);
                assert(within(m.shape, c));
            }
        }
    }
    let context = value(&w.context(x, step), env);
    assert(context.shape =~= full);
    assert(at.update(1, at[2]).update(2, at[1]) =~= idx);
    if w.has_gate() {
        queries_are_projected(w, x, step, env, past, idx);
        assert(seq![idx[0], idx[2], idx[1], idx[3]] =~= at);
        lemma_broadcast_row(full);
        meaning::lemma_clipped(full, at);
        let gates = value(&w.gate(x, step), env);
        assert(gates.shape == full);
    }
}

/// The output of an attention layer: each position is the output projection of what the heads give
/// for it, head behind head.
#[verifier::rlimit(40)]
pub proof fn attention_output<E>(
    w: AttentionWeights,
    x: Rc<Node>,
    step: Step,
    env: World<E>,
    past: nat,
    idx: Seq<int>,
)
    requires
        suits(w, value(&x, env), step, env, past),
        w.num_heads > 0,
        w.head_dim > 0,
        within(
            seq![
                step.batch as nat,
                step.len as nat,
                (env.arithmetic.width)(Projection::Output),
            ],
            idx,
        ),
    ensures
        ({
            let (h, d) = (w.num_heads as nat, w.head_dim as nat);
            let keys = value(&w.all_keys(x, step), env);
            let values = value(&w.all_values(x, step), env);
            let r = value(&w.output(x, step), env);
            &&& r.shape == seq![
                step.batch as nat,
                step.len as nat,
                (env.arithmetic.width)(Projection::Output),
            ]
            &&& (r.at)(idx) == (env.arithmetic.linear)(
                Projection::Output,
                Seq::new(
                    h * d,
                    |c: int|
                        head_output(
                            w,
                            env,
                            value(&x, env),
                            keys,
                            values,
                            step,
                            idx[0],
                            idx[1],
                            c / d as int,
                            c % d as int,
                        ),
                ),
            )[idx[2]]
        }),
{
    broadcast use meaning::group_value;

    let (b, s, h, d) = (
        step.batch as nat,
        step.len as nat,
        w.num_heads as nat,
        w.head_dim as nat,
    );
    let n = (env.arithmetic.width)(Projection::Output);
    let full = seq![b, s, n];
    assert(0 <= idx[0] < full[0] && 0 <= idx[1] < full[1] && 0 <= idx[2] < full[2]);
    assert(0 <= h * d) by (nonlinear_arith);
    assert(h * d <= usize::MAX) by (nonlinear_arith)
        requires
            h * d * 2 <= usize::MAX,
            0 <= h * d,
    ;
    let made = if w.has_gate() {
        crate::attention::gated(&w.context(x, step), &w.gate(x, step))
    } else {
        w.context(x, step)
    };
    let t = value(&made, env);
    let start = seq![idx[0], idx[1], 0, 0];
    assert(within(seq![b, s, h, d], start));
    lemma_head_output(w, x, step, env, past, start);
    let joint = reshaped(t, seq![b, s, h * d]);
    let keys = value(&w.all_keys(x, step), env);
    let values = value(&w.all_values(x, step), env);
    let expected = Seq::new(
        h * d,
        |c: int|
            head_output(
                w,
                env,
                value(&x, env),
                keys,
                values,
                step,
                idx[0],
                idx[1],
                c / d as int,
                c % d as int,
            ),
    );
    assert(line(joint, 2, idx) =~= expected) by {
        assert forall|c: int| 0 <= c < h * d implies (joint.at)(#[trigger] idx.update(2, c))
            == expected[c] by {
            let i = idx.update(2, c);
            assert(within(seq![b, s, h * d], i));
            lemma_from_heads(t, b, s, h, d, i);
            let at = seq![i[0], i[1], i[2] / d as int, i[2] % d as int];
            lemma_head_output(w, x, step, env, past, at);
        }
    }
    assert(value(&w.output(x, step), env).shape =~= full);
}

}
